use crate::address::Address;
use crate::table::{paths_view, table_wf, PathTable};
use vstd::prelude::*;

verus! {

/// `p` read from its origin (last element) back to its nearest hop.
pub open spec fn reversed(p: Seq<u32>) -> Seq<u32> {
    Seq::new(p.len(), |k: int| p[p.len() - 1 - k])
}

/// The length of the longest common prefix of `a` and `b`.
pub open spec fn shared_len(a: Seq<u32>, b: Seq<u32>) -> nat
    decreases a.len(),
{
    if a.len() == 0 || b.len() == 0 || a[0] != b[0] {
        0
    } else {
        1 + shared_len(a.drop_first(), b.drop_first())
    }
}

/// The longest sequence of AS numbers that all paths of `ps` end with,
/// origin first.
pub open spec fn common_suffix(ps: Seq<Seq<u32>>) -> Seq<u32>
    decreases ps.len(),
{
    if ps.len() == 0 {
        seq![]
    } else if ps.len() == 1 {
        reversed(ps[0])
    } else {
        let c = common_suffix(ps.drop_last());
        c.take(shared_len(c, reversed(ps.last())) as int)
    }
}

/// Every path of `ps` names the same origin AS.
pub open spec fn same_origin(ps: Seq<Seq<u32>>) -> bool {
    forall|i: int| 0 <= i < ps.len() ==> (#[trigger] ps[i]).last() == ps[0].last()
}

pub open spec fn has_empty_path(ps: Seq<Seq<u32>>) -> bool {
    exists|i: int| 0 <= i < ps.len() && (#[trigger] ps[i]).len() == 0
}

/// The bottleneck AS: the most distal AS that all paths share.
pub open spec fn bottleneck(ps: Seq<Seq<u32>>) -> u32 {
    common_suffix(ps).last()
}

/// `c`, origin first, is a suffix of every path of `ps`.
pub open spec fn is_shared_suffix(c: Seq<u32>, ps: Seq<Seq<u32>>) -> bool {
    &&& forall|i: int| 0 <= i < ps.len() ==> c.len() <= (#[trigger] ps[i]).len()
    &&& forall|i: int, k: int|
        0 <= i < ps.len() && 0 <= k < c.len() ==> c[k] == #[trigger] reversed(ps[i])[k]
}

/// At depth `n` (counted from the origin) the paths of `ps` no longer all
/// agree: one of them has ended, or two of them differ.
pub open spec fn diverge_at(ps: Seq<Seq<u32>>, n: int) -> bool {
    ||| exists|i: int| 0 <= i < ps.len() && (#[trigger] ps[i]).len() == n
    ||| exists|i: int, j: int|
        0 <= i < ps.len() && 0 <= j < ps.len() && n < ps[i].len() && n < ps[j].len()
            && #[trigger] reversed(ps[i])[n] != #[trigger] reversed(ps[j])[n]
}

/// The prefixes of `v` whose paths agree on their origin, each with the
/// common suffix of its paths, in table order.
pub open spec fn resolved(v: Seq<(Address, Seq<Seq<u32>>)>) -> Seq<(Address, Seq<u32>)>
    decreases v.len(),
{
    if v.len() == 0 {
        seq![]
    } else {
        let r = resolved(v.drop_last());
        if same_origin(v.last().1) {
            r.push((v.last().0, common_suffix(v.last().1)))
        } else {
            r
        }
    }
}

/// The bottleneck of each prefix of `v` that is not dropped for mixed origins.
pub open spec fn bottlenecks(v: Seq<(Address, Seq<Seq<u32>>)>) -> Seq<(Address, u32)> {
    resolved(v).map_values(|e: (Address, Seq<u32>)| (e.0, e.1.last()))
}

pub open spec fn any_empty_path(v: Seq<(Address, Seq<Seq<u32>>)>) -> bool {
    exists|i: int| 0 <= i < v.len() && has_empty_path(#[trigger] v[i].1)
}

pub open spec fn suffix_view(out: Seq<(Address, Vec<u32>)>) -> Seq<(Address, Seq<u32>)> {
    out.map_values(|e: (Address, Vec<u32>)| (e.0, e.1@))
}

proof fn lemma_shared_len(a: Seq<u32>, b: Seq<u32>)
    ensures
        shared_len(a, b) <= a.len(),
        shared_len(a, b) <= b.len(),
        forall|t: int| 0 <= t < shared_len(a, b) ==> a[t] == b[t],
        shared_len(a, b) == a.len() || shared_len(a, b) == b.len() || a[shared_len(a, b) as int]
            != b[shared_len(a, b) as int],
    decreases a.len(),
{
    if !(a.len() == 0 || b.len() == 0 || a[0] != b[0]) {
        lemma_shared_len(a.drop_first(), b.drop_first());
        let n = shared_len(a, b);
        assert forall|t: int| 0 <= t < n implies a[t] == b[t] by {
            if t > 0 {
                assert(a[t] == a.drop_first()[t - 1]);
                assert(b[t] == b.drop_first()[t - 1]);
            }
        }
    }
}

proof fn lemma_shared_len_is(a: Seq<u32>, b: Seq<u32>, n: int)
    requires
        0 <= n <= a.len(),
        n <= b.len(),
        forall|t: int| 0 <= t < n ==> a[t] == b[t],
        n == a.len() || n == b.len() || a[n] != b[n],
    ensures
        shared_len(a, b) == n,
{
    lemma_shared_len(a, b);
    let m = shared_len(a, b) as int;
    if m < n {
        assert(a[m] == b[m]);
    } else if n < m {
        assert(a[n] == b[n]);
    }
}

/// The common suffix is shared by every path and is as long as it can be.
proof fn lemma_common_suffix(ps: Seq<Seq<u32>>)
    requires
        ps.len() > 0,
    ensures
        is_shared_suffix(common_suffix(ps), ps),
        common_suffix(ps).len() <= ps[0].len(),
        diverge_at(ps, common_suffix(ps).len() as int),
    decreases ps.len(),
{
    let c = common_suffix(ps);
    if ps.len() == 1 {
        assert(ps[0].len() == c.len());
    } else {
        let qs = ps.drop_last();
        let c0 = common_suffix(qs);
        let last = ps.last();
        let rl = reversed(last);
        lemma_common_suffix(qs);
        lemma_shared_len(c0, rl);
        let n = shared_len(c0, rl) as int;
        assert(c =~= c0.take(n));
        assert forall|i: int| 0 <= i < ps.len() implies c.len() <= (#[trigger] ps[i]).len() by {
            if i < ps.len() - 1 {
                assert(ps[i] == qs[i]);
            }
        }
        assert forall|i: int, k: int| 0 <= i < ps.len() && 0 <= k < c.len() implies c[k]
            == #[trigger] reversed(ps[i])[k] by {
            if i < ps.len() - 1 {
                assert(ps[i] == qs[i]);
                assert(c0[k] == reversed(qs[i])[k]);
            } else {
                assert(ps[i] == last);
                assert(c0[k] == rl[k]);
            }
        }
        assert(c.len() <= ps[0].len()) by {
            assert(ps[0] == qs[0]);
        }
        if n == c0.len() {
            if exists|i: int| 0 <= i < qs.len() && (#[trigger] qs[i]).len() == n {
                let i = choose|i: int| 0 <= i < qs.len() && (#[trigger] qs[i]).len() == n;
                assert(ps[i] == qs[i]);
            } else {
                let (i, j) = choose|i: int, j: int|
                    0 <= i < qs.len() && 0 <= j < qs.len() && n < qs[i].len() && n < qs[j].len()
                        && #[trigger] reversed(qs[i])[n] != #[trigger] reversed(qs[j])[n];
                assert(ps[i] == qs[i] && ps[j] == qs[j]);
                assert(reversed(ps[i])[n] != reversed(ps[j])[n]);
            }
        } else if n == rl.len() {
            assert(ps[ps.len() - 1].len() == n);
        } else {
            assert(ps[0] == qs[0]);
            assert(qs[0].len() >= c0.len());
            assert(c0[n] == reversed(qs[0])[n]);
            assert(reversed(ps[0])[n] != reversed(ps[ps.len() - 1])[n]);
        }
    }
}

/// A common suffix is determined by being shared and maximal.
proof fn lemma_shared_suffix_unique(ps: Seq<Seq<u32>>, c: Seq<u32>, d: Seq<u32>)
    requires
        ps.len() > 0,
        is_shared_suffix(c, ps),
        is_shared_suffix(d, ps),
        diverge_at(ps, c.len() as int),
        diverge_at(ps, d.len() as int),
        c.len() <= ps[0].len(),
        d.len() <= ps[0].len(),
    ensures
        c == d,
{
    lemma_shorter_not_diverged(ps, c, d);
    lemma_shorter_not_diverged(ps, d, c);
    assert forall|k: int| 0 <= k < c.len() implies c[k] == d[k] by {
        assert(c[k] == reversed(ps[0])[k]);
        assert(d[k] == reversed(ps[0])[k]);
    }
    assert(c =~= d);
}

proof fn lemma_shorter_not_diverged(ps: Seq<Seq<u32>>, c: Seq<u32>, d: Seq<u32>)
    requires
        ps.len() > 0,
        is_shared_suffix(d, ps),
        diverge_at(ps, c.len() as int),
        d.len() <= ps[0].len(),
    ensures
        c.len() >= d.len(),
{
    if c.len() < d.len() {
        let n = c.len() as int;
        if exists|i: int| 0 <= i < ps.len() && (#[trigger] ps[i]).len() == n {
            let i = choose|i: int| 0 <= i < ps.len() && (#[trigger] ps[i]).len() == n;
            assert(d[0] == reversed(ps[i])[0]);
        } else {
            let (i, j) = choose|i: int, j: int|
                0 <= i < ps.len() && 0 <= j < ps.len() && n < ps[i].len() && n < ps[j].len()
                    && #[trigger] reversed(ps[i])[n] != #[trigger] reversed(ps[j])[n];
            assert(d[n] == reversed(ps[i])[n]);
            assert(d[n] == reversed(ps[j])[n]);
        }
    }
}

proof fn lemma_common_suffix_nonempty(ps: Seq<Seq<u32>>)
    requires
        ps.len() > 0,
        !has_empty_path(ps),
        same_origin(ps),
    ensures
        common_suffix(ps).len() > 0,
        common_suffix(ps)[0] == ps[0].last(),
{
    lemma_common_suffix(ps);
    let c = common_suffix(ps);
    if c.len() == 0 {
        if exists|i: int| 0 <= i < ps.len() && (#[trigger] ps[i]).len() == 0 {
            let i = choose|i: int| 0 <= i < ps.len() && (#[trigger] ps[i]).len() == 0;
        } else {
            let (i, j) = choose|i: int, j: int|
                0 <= i < ps.len() && 0 <= j < ps.len() && 0 < ps[i].len() && 0 < ps[j].len()
                    && #[trigger] reversed(ps[i])[0] != #[trigger] reversed(ps[j])[0];
            assert(ps[i].last() == ps[0].last());
            assert(ps[j].last() == ps[0].last());
        }
    }
    assert(c[0] == reversed(ps[0])[0]);
}

/// The bottleneck of a set of paths that agree on their origin is an AS on
/// every one of them.
pub proof fn law_bottleneck_on_every_path(ps: Seq<Seq<u32>>)
    requires
        ps.len() > 0,
        !has_empty_path(ps),
        same_origin(ps),
    ensures
        forall|i: int| 0 <= i < ps.len() ==> (#[trigger] ps[i]).contains(bottleneck(ps)),
{
    lemma_common_suffix(ps);
    lemma_common_suffix_nonempty(ps);
    let c = common_suffix(ps);
    assert forall|i: int| 0 <= i < ps.len() implies (#[trigger] ps[i]).contains(bottleneck(ps)) by {
        let k = c.len() - 1;
        assert(c[k] == reversed(ps[i])[k]);
        assert(ps[i][ps[i].len() - 1 - k] == bottleneck(ps));
    }
}

/// The bottleneck of a single path is its nearest hop.
pub proof fn law_single_path(p: Seq<u32>)
    requires
        p.len() > 0,
    ensures
        bottleneck(seq![p]) == p[0],
{
    assert(seq![p][0] == p);
}

/// The bottleneck closes the longest run of AS numbers, counted from the
/// origin, that every path shares: one step further the paths no longer all
/// agree.
pub proof fn law_bottleneck_is_deepest_shared(ps: Seq<Seq<u32>>)
    requires
        ps.len() > 0,
        !has_empty_path(ps),
        same_origin(ps),
    ensures
        common_suffix(ps).len() > 0,
        bottleneck(ps) == common_suffix(ps)[common_suffix(ps).len() - 1],
        is_shared_suffix(common_suffix(ps), ps),
        diverge_at(ps, common_suffix(ps).len() as int),
{
    lemma_common_suffix(ps);
    lemma_common_suffix_nonempty(ps);
}

/// The common suffix depends on which paths were seen, not on the order in
/// which they arrived nor on which input they came from.
pub proof fn law_suffix_depends_on_path_set(ps: Seq<Seq<u32>>, qs: Seq<Seq<u32>>)
    requires
        ps.len() > 0,
        ps.to_set() == qs.to_set(),
    ensures
        common_suffix(ps) == common_suffix(qs),
{
    assert(ps.to_set().contains(ps[0]));
    assert(qs.len() > 0) by {
        assert(qs.to_set().contains(ps[0]));
    }
    assert forall|p: Seq<u32>| #[trigger] qs.contains(p) implies ps.contains(p) by {
        assert(qs.to_set().contains(p));
    }
    assert forall|p: Seq<u32>| #[trigger] ps.contains(p) implies qs.contains(p) by {
        assert(ps.to_set().contains(p));
    }
    lemma_common_suffix(ps);
    lemma_common_suffix(qs);
    let c = common_suffix(ps);
    let d = common_suffix(qs);
    lemma_transfer(ps, qs, d);
    lemma_transfer(qs, ps, c);
    assert(d.len() <= ps[0].len());
    assert(c.len() <= qs[0].len());
    lemma_shared_suffix_unique(ps, c, d);
}

/// What the paths of `qs` share, and where they diverge, carries over to
/// `ps` when both hold the same paths.
proof fn lemma_transfer(ps: Seq<Seq<u32>>, qs: Seq<Seq<u32>>, d: Seq<u32>)
    requires
        is_shared_suffix(d, qs),
        diverge_at(qs, d.len() as int),
        forall|p: Seq<u32>| #[trigger] qs.contains(p) ==> ps.contains(p),
        forall|p: Seq<u32>| #[trigger] ps.contains(p) ==> qs.contains(p),
    ensures
        is_shared_suffix(d, ps),
        diverge_at(ps, d.len() as int),
{
    assert forall|i: int| 0 <= i < ps.len() implies d.len() <= (#[trigger] ps[i]).len() by {
        assert(ps.contains(ps[i]));
        let j = choose|j: int| 0 <= j < qs.len() && qs[j] == ps[i];
        assert(d.len() <= qs[j].len());
    }
    assert forall|i: int, k: int| 0 <= i < ps.len() && 0 <= k < d.len() implies d[k] == #[trigger] reversed(
        ps[i],
    )[k] by {
        assert(ps.contains(ps[i]));
        let j = choose|j: int| 0 <= j < qs.len() && qs[j] == ps[i];
        assert(d[k] == reversed(qs[j])[k]);
    }
    let n = d.len() as int;
    if exists|i: int| 0 <= i < qs.len() && (#[trigger] qs[i]).len() == n {
        let i = choose|i: int| 0 <= i < qs.len() && (#[trigger] qs[i]).len() == n;
        assert(qs.contains(qs[i]));
        let j = choose|j: int| 0 <= j < ps.len() && ps[j] == qs[i];
        assert(ps[j].len() == n);
    } else {
        let (i, j) = choose|i: int, j: int|
            0 <= i < qs.len() && 0 <= j < qs.len() && n < qs[i].len() && n < qs[j].len()
                && #[trigger] reversed(qs[i])[n] != #[trigger] reversed(qs[j])[n];
        assert(qs.contains(qs[i]));
        assert(qs.contains(qs[j]));
        let x = choose|x: int| 0 <= x < ps.len() && ps[x] == qs[i];
        let y = choose|y: int| 0 <= y < ps.len() && ps[y] == qs[j];
        assert(reversed(ps[x])[n] != reversed(ps[y])[n]);
    }
}

/// Why resolution stopped.
#[derive(Clone, Copy, Debug, PartialEq, Eq, Structural)]
pub enum BottleneckError {
    /// A prefix was recorded with an empty AS path, which upstream extraction
    /// never should produce.
    EmptyPath(Address),
}

/// The bottleneck AS of each resolved prefix.
pub struct FindBottleneck {
    pub prefix_asn: Vec<(Address, u32)>,
}

proof fn lemma_resolved_from(v: Seq<(Address, Seq<Seq<u32>>)>, j: int)
    requires
        0 <= j < resolved(v).len(),
    ensures
        exists|i: int|
            0 <= i < v.len() && (#[trigger] v[i]).0 == resolved(v)[j].0 && same_origin(v[i].1)
                && resolved(v)[j].1 == common_suffix(v[i].1),
    decreases v.len(),
{
    let r = resolved(v.drop_last());
    if same_origin(v.last().1) && j == r.len() {
        assert(v[v.len() - 1] == v.last());
    } else {
        lemma_resolved_from(v.drop_last(), j);
        let i = choose|i: int|
            0 <= i < v.drop_last().len() && (#[trigger] v.drop_last()[i]).0 == r[j].0 && same_origin(
                v.drop_last()[i].1,
            ) && r[j].1 == common_suffix(v.drop_last()[i].1);
        assert(v[i] == v.drop_last()[i]);
    }
}

/// A prefix whose paths disagree on their origin gets no result.
pub proof fn law_mixed_origins_dropped(v: Seq<(Address, Seq<Seq<u32>>)>, i: int)
    requires
        table_wf(v),
        0 <= i < v.len(),
        !same_origin(v[i].1),
    ensures
        forall|j: int| 0 <= j < resolved(v).len() ==> (#[trigger] resolved(v)[j]).0 != v[i].0,
        forall|j: int| 0 <= j < bottlenecks(v).len() ==> (#[trigger] bottlenecks(v)[j]).0 != v[i].0,
{
    assert forall|j: int| 0 <= j < resolved(v).len() implies (#[trigger] resolved(v)[j]).0 != v[i].0 by {
        lemma_resolved_from(v, j);
    }
    assert forall|j: int| 0 <= j < bottlenecks(v).len() implies (#[trigger] bottlenecks(v)[j]).0 != v[i].0 by {
        assert(bottlenecks(v)[j].0 == resolved(v)[j].0);
    }
}

/// Each resolved suffix is non-empty and starts with the origin.
proof fn lemma_resolved_nonempty(v: Seq<(Address, Seq<Seq<u32>>)>)
    requires
        table_wf(v),
        !any_empty_path(v),
    ensures
        forall|j: int| 0 <= j < resolved(v).len() ==> (#[trigger] resolved(v)[j]).1.len() > 0,
{
    assert forall|j: int| 0 <= j < resolved(v).len() implies (#[trigger] resolved(v)[j]).1.len() > 0 by {
        lemma_resolved_from(v, j);
        let i = choose|i: int|
            0 <= i < v.len() && (#[trigger] v[i]).0 == resolved(v)[j].0 && same_origin(v[i].1)
                && resolved(v)[j].1 == common_suffix(v[i].1);
        assert(!has_empty_path(v[i].1));
        lemma_common_suffix_nonempty(v[i].1);
    }
}

/// The common suffix of `paths`, origin first, or `None` where two of them
/// disagree on their origin.
fn suffix_of_paths(paths: &Vec<Vec<u32>>) -> (r: Option<Vec<u32>>)
    requires
        paths@.len() > 0,
        !has_empty_path(paths_view(paths@)),
    ensures
        same_origin(paths_view(paths@)) ==> r is Some && r->0@ == common_suffix(paths_view(paths@)),
        !same_origin(paths_view(paths@)) ==> r is None,
{
    let ghost ps = paths_view(paths@);
    let first = &paths[0];
    let n = first.len();
    proof {
        assert(ps[0] == first@);
        if n == 0 {
            assert(ps[0].len() == 0);
        }
    }
    let origin = first[n - 1];
    let mut i: usize = 1;
    while i < paths.len()
        invariant
            1 <= i <= paths@.len(),
            ps == paths_view(paths@),
            ps[0].len() > 0,
            origin == ps[0].last(),
            !has_empty_path(ps),
            forall|j: int| 0 <= j < i ==> (#[trigger] ps[j]).last() == origin,
        decreases paths.len() - i,
    {
        let p = &paths[i];
        proof {
            assert(ps[i as int] == p@);
            if p@.len() == 0 {
                assert(ps[i as int].len() == 0);
            }
        }
        if p[p.len() - 1] != origin {
            return None;
        }
        i = i + 1;
    }
    let mut c: Vec<u32> = Vec::new();
    let mut k: usize = 0;
    while k < n
        invariant
            k <= n,
            n == first@.len(),
            c@ =~= reversed(first@).take(k as int),
        decreases n - k,
    {
        c.push(first[n - 1 - k]);
        k = k + 1;
    }
    proof {
        assert(c@ =~= reversed(first@));
        assert(ps.take(1) =~= seq![ps[0]]);
    }
    i = 1;
    while i < paths.len()
        invariant
            1 <= i <= paths@.len(),
            ps == paths_view(paths@),
            c@ == common_suffix(ps.take(i as int)),
        decreases paths.len() - i,
    {
        let p = &paths[i];
        let m = p.len();
        let ghost rp = reversed(p@);
        let mut j: usize = 0;
        while j < c.len() && j < m && c[j] == p[m - 1 - j]
            invariant
                j <= c@.len(),
                j <= m,
                m == p@.len(),
                rp == reversed(p@),
                forall|t: int| 0 <= t < j ==> c@[t] == rp[t],
            decreases m - j,
        {
            j = j + 1;
        }
        proof {
            lemma_shared_len_is(c@, rp, j as int);
            assert(ps.take(i + 1).drop_last() =~= ps.take(i as int));
            assert(ps.take(i + 1).last() == p@);
        }
        c.truncate(j);
        i = i + 1;
    }
    proof {
        assert(ps.take(i as int) =~= ps);
    }
    Some(c)
}

impl FindBottleneck {
    /// Pairs each prefix of `mrt_hm` with the AS numbers, origin first, that all
    /// of its paths end with. Prefixes whose paths disagree on their origin are
    /// left out. Fails, naming the prefix, where a prefix holds an empty path.
    pub fn find_common_suffix(mrt_hm: &PathTable, prefix_to_common_suffix: &mut Vec<(Address, Vec<u32>)>) -> (r:
        Result<(), BottleneckError>)
        requires
            mrt_hm.wf(),
        ensures
            r is Ok <==> !any_empty_path(mrt_hm@),
            r is Ok ==> suffix_view(final(prefix_to_common_suffix)@) == suffix_view(
                old(prefix_to_common_suffix)@,
            ) + resolved(mrt_hm@),
            match r {
                Err(BottleneckError::EmptyPath(a)) => exists|i: int|
                    0 <= i < mrt_hm@.len() && (#[trigger] mrt_hm@[i]).0 == a && has_empty_path(mrt_hm@[i].1),
                Ok(()) => true,
            },
    {
        let ghost v = mrt_hm@;
        let ghost start = suffix_view(prefix_to_common_suffix@);
        let mut i: usize = 0;
        while i < mrt_hm.entries.len()
            invariant
                i <= v.len(),
                v == mrt_hm@,
                table_wf(v),
                forall|j: int| 0 <= j < i ==> !has_empty_path(#[trigger] v[j].1),
            decreases mrt_hm.entries.len() - i,
        {
            let paths = &mrt_hm.entries[i].paths;
            let mut j: usize = 0;
            while j < paths.len()
                invariant
                    i < v.len(),
                    v == mrt_hm@,
                    j <= paths@.len(),
                    paths@ == mrt_hm.entries@[i as int].paths@,
                    paths_view(paths@) == v[i as int].1,
                    forall|t: int| 0 <= t < j ==> (#[trigger] v[i as int].1[t]).len() > 0,
                decreases paths.len() - j,
            {
                if paths[j].len() == 0 {
                    proof {
                        assert(v[i as int].1[j as int] == paths@[j as int]@);
                        assert(has_empty_path(v[i as int].1));
                        assert(v[i as int].0 == mrt_hm.entries@[i as int].addr);
                    }
                    return Err(BottleneckError::EmptyPath(mrt_hm.entries[i].addr));
                }
                proof {
                    assert(v[i as int].1[j as int] == paths@[j as int]@);
                }
                j = j + 1;
            }
            i = i + 1;
        }
        i = 0;
        while i < mrt_hm.entries.len()
            invariant
                i <= v.len(),
                v == mrt_hm@,
                table_wf(v),
                !any_empty_path(v),
                suffix_view(prefix_to_common_suffix@) == start + resolved(v.take(i as int)),
            decreases mrt_hm.entries.len() - i,
        {
            let entry = &mrt_hm.entries[i];
            proof {
                assert(v[i as int] == entry@);
                assert(v.take(i + 1).drop_last() =~= v.take(i as int));
                assert(v.take(i + 1).last() == v[i as int]);
                assert(!has_empty_path(v[i as int].1));
            }
            match suffix_of_paths(&entry.paths) {
                Some(c) => {
                    let ghost before = prefix_to_common_suffix@;
                    let ghost cv = c@;
                    prefix_to_common_suffix.push((entry.addr, c));
                    proof {
                        assert(same_origin(v[i as int].1));
                        assert(cv == common_suffix(v[i as int].1));
                        assert(resolved(v.take(i + 1)) == resolved(v.take(i as int)).push(
                            (v[i as int].0, common_suffix(v[i as int].1)),
                        ));
                        assert(suffix_view(prefix_to_common_suffix@) =~= suffix_view(before).push(
                            (entry.addr, cv),
                        ));
                        assert(suffix_view(prefix_to_common_suffix@) =~= start + resolved(v.take(i + 1)));
                    }
                },
                None => {
                    proof {
                        assert(resolved(v.take(i + 1)) == resolved(v.take(i as int)));
                    }
                },
            }
            i = i + 1;
        }
        proof {
            assert(v.take(i as int) =~= v);
        }
        Ok(())
    }

    pub fn new() -> (r: FindBottleneck)
        ensures
            r.prefix_asn@.len() == 0,
    {
        FindBottleneck { prefix_asn: Vec::new() }
    }

    /// Adds the bottleneck AS of each prefix of `mrt_hm`: the last AS of the
    /// common suffix of its paths. Prefixes whose paths disagree on their
    /// origin get none. Fails, naming the prefix, where one holds an empty path.
    pub fn find_as_bottleneck(&mut self, mrt_hm: &PathTable) -> (r: Result<(), BottleneckError>)
        requires
            mrt_hm.wf(),
        ensures
            r is Ok <==> !any_empty_path(mrt_hm@),
            r is Ok ==> final(self).prefix_asn@ == old(self).prefix_asn@ + bottlenecks(mrt_hm@),
            match r {
                Err(BottleneckError::EmptyPath(a)) => exists|i: int|
                    0 <= i < mrt_hm@.len() && (#[trigger] mrt_hm@[i]).0 == a && has_empty_path(
                        mrt_hm@[i].1,
                    ),
                Ok(()) => true,
            },
    {
        let mut suffixes: Vec<(Address, Vec<u32>)> = Vec::new();
        let found = Self::find_common_suffix(mrt_hm, &mut suffixes);
        match found {
            Err(e) => {
                return Err(e);
            },
            Ok(()) => {},
        }
        let ghost res = resolved(mrt_hm@);
        let ghost start = self.prefix_asn@;
        proof {
            assert(suffix_view(suffixes@) =~= res);
            lemma_resolved_nonempty(mrt_hm@);
        }
        let mut i: usize = 0;
        while i < suffixes.len()
            invariant
                i <= suffixes@.len(),
                suffix_view(suffixes@) == res,
                forall|j: int| 0 <= j < res.len() ==> (#[trigger] res[j]).1.len() > 0,
                self.prefix_asn@ =~= start + bottlenecks(mrt_hm@).take(i as int),
                res == resolved(mrt_hm@),
            decreases suffixes.len() - i,
        {
            let addr = suffixes[i].0;
            let path = &suffixes[i].1;
            proof {
                assert(res[i as int] == (addr, path@));
            }
            let asn = path[path.len() - 1];
            self.prefix_asn.push((addr, asn));
            i = i + 1;
        }
        proof {
            assert(bottlenecks(mrt_hm@).take(i as int) =~= bottlenecks(mrt_hm@));
        }
        Ok(())
    }

    /// Hands each (prefix, bottleneck AS) pair over to `out`, in order.
    pub fn write_bottleneck(self, out: &mut Vec<(Address, u32)>)
        ensures
            final(out)@ == old(out)@ + self.prefix_asn@,
    {
        let mut records = self.prefix_asn;
        out.append(&mut records);
    }
}

} // verus!
