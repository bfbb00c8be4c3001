use crate::address::{Address, IpValue};
use crate::attributes::{as_path_of, as_path_spec};
use crate::path::{collapse, collapse_repeats};
use crate::table::{has_prefix, lemma_map_entry, paths_for, paths_view, table_map, table_wf, PathTable};
use vstd::prelude::*;

verus! {

/// The AS paths, with repeats collapsed, that the path attributes of the
/// peers carry, in order; peers whose attributes yield no AS path are left out.
pub open spec fn extracted(peers: Seq<Vec<u8>>) -> Seq<Seq<u32>>
    decreases peers.len(),
{
    if peers.len() == 0 {
        seq![]
    } else {
        let r = extracted(peers.drop_last());
        match as_path_spec(peers.last()@) {
            Some(p) => r.push(collapse(p)),
            None => r,
        }
    }
}

/// Records the AS paths that the peers of one routing record gave for prefix
/// `ip`/`mask`; `entries` holds the path attributes of each peer. Each path
/// has its repeated AS numbers collapsed; a peer whose attributes yield no AS
/// path is skipped.
pub fn match_rib_entry(entries: Vec<Vec<u8>>, ip: IpValue, mask: u8, mrt_hm: &mut PathTable)
    requires
        old(mrt_hm).wf(),
    ensures
        final(mrt_hm).wf(),
        extracted(entries@).len() == 0 ==> final(mrt_hm)@ == old(mrt_hm)@,
        extracted(entries@).len() > 0 ==> table_map(final(mrt_hm)@) == table_map(old(mrt_hm)@).insert(
            Address { ip, mask },
            paths_for(old(mrt_hm)@, Address { ip, mask }).union(extracted(entries@).to_set()),
        ),
{
    let addr = Address { ip, mask };
    let mut paths: Vec<Vec<u32>> = Vec::new();
    let mut i: usize = 0;
    while i < entries.len()
        invariant
            i <= entries@.len(),
            paths_view(paths@) == extracted(entries@.take(i as int)),
        decreases entries.len() - i,
    {
        proof {
            assert(entries@.take(i + 1).drop_last() =~= entries@.take(i as int));
        }
        match as_path_of(entries[i].as_slice()) {
            Some(p) => {
                let c = collapse_repeats(&p);
                paths.push(c);
                proof {
                    assert(paths_view(paths@) =~= extracted(entries@.take(i as int)).push(collapse(p@)));
                }
            },
            None => {},
        }
        i = i + 1;
    }
    proof {
        assert(entries@.take(i as int) =~= entries@);
    }
    mrt_hm.insert_all(addr, paths);
}

/// Files one routing record read while processing the bin that ends at
/// leading byte `end`. A record whose leading byte lies past `end` belongs to
/// a later bin: it goes to `carry`, and `true` tells the reader to stop.
/// Any other record goes to `batch`.
pub fn ingest_record(
    batch: &mut PathTable,
    carry: &mut PathTable,
    ip: IpValue,
    mask: u8,
    entries: Vec<Vec<u8>>,
    end: u8,
) -> (beyond: bool)
    requires
        old(batch).wf(),
        old(carry).wf(),
    ensures
        beyond == ((Address { ip, mask }).leading_byte_spec() > end),
        final(batch).wf(),
        final(carry).wf(),
        beyond ==> final(batch)@ == old(batch)@,
        !beyond ==> final(carry)@ == old(carry)@,
        extracted(entries@).len() == 0 ==> final(batch)@ == old(batch)@ && final(carry)@ == old(carry)@,
        extracted(entries@).len() > 0 && beyond ==> table_map(final(carry)@) == table_map(old(carry)@).insert(
            Address { ip, mask },
            paths_for(old(carry)@, Address { ip, mask }).union(extracted(entries@).to_set()),
        ),
        extracted(entries@).len() > 0 && !beyond ==> table_map(final(batch)@) == table_map(old(batch)@).insert(
            Address { ip, mask },
            paths_for(old(batch)@, Address { ip, mask }).union(extracted(entries@).to_set()),
        ),
{
    let addr = Address { ip, mask };
    if addr.leading_byte() > end {
        match_rib_entry(entries, ip, mask, carry);
        true
    } else {
        match_rib_entry(entries, ip, mask, batch);
        false
    }
}

/// What the batch holds after the unsorted cache has been merged into it:
/// each prefix of the batch with its own paths and those the cache had.
pub open spec fn merged(
    batch: Seq<(Address, Seq<Seq<u32>>)>,
    cache: Seq<(Address, Seq<Seq<u32>>)>,
) -> Map<Address, Set<Seq<u32>>> {
    Map::new(|a: Address| has_prefix(batch, a), |a: Address| paths_for(batch, a).union(paths_for(cache, a)))
}

pub open spec fn merged_upto(
    batch: Seq<(Address, Seq<Seq<u32>>)>,
    cache: Seq<(Address, Seq<Seq<u32>>)>,
    done: Set<Address>,
) -> Map<Address, Set<Seq<u32>>> {
    Map::new(
        |a: Address| has_prefix(batch, a),
        |a: Address|
            if done.contains(a) {
                paths_for(batch, a).union(paths_for(cache, a))
            } else {
                paths_for(batch, a)
            },
    )
}

/// Moves into the batch the paths that the unsorted cache holds for the
/// batch's prefixes, and drops those prefixes from the cache so that they
/// are not resolved a second time.
pub fn merge_unsorted(batch: &mut PathTable, cache: &mut PathTable)
    requires
        old(batch).wf(),
        old(cache).wf(),
    ensures
        final(batch).wf(),
        final(cache).wf(),
        table_map(final(batch)@) == merged(old(batch)@, old(cache)@),
        table_map(final(cache)@) == table_map(old(cache)@).remove_keys(table_map(old(batch)@).dom()),
{
    let ghost b0 = batch@;
    let ghost c0 = cache@;
    let mut addrs: Vec<Address> = Vec::new();
    let mut i: usize = 0;
    while i < batch.entries.len()
        invariant
            i <= b0.len(),
            batch@ == b0,
            addrs@.len() == i,
            forall|j: int| 0 <= j < i ==> addrs@[j] == (#[trigger] b0[j]).0,
        decreases batch.entries.len() - i,
    {
        addrs.push(batch.entries[i].addr);
        i = i + 1;
    }
    proof {
        assert(addrs@.take(0).to_set() =~= Set::<Address>::empty());
        assert(table_map(b0) =~= merged_upto(b0, c0, Set::empty()));
        assert(table_map(c0).remove_keys(Set::empty()) =~= table_map(c0));
    }
    i = 0;
    while i < addrs.len()
        invariant
            i <= addrs@.len(),
            addrs@.len() == b0.len(),
            forall|j: int| 0 <= j < b0.len() ==> addrs@[j] == (#[trigger] b0[j]).0,
            table_wf(b0),
            batch.wf(),
            cache.wf(),
            table_map(batch@) == merged_upto(b0, c0, addrs@.take(i as int).to_set()),
            table_map(cache@) == table_map(c0).remove_keys(addrs@.take(i as int).to_set()),
        decreases addrs.len() - i,
    {
        let a = addrs[i];
        let ghost done = addrs@.take(i as int).to_set();
        let ghost bi = batch@;
        let ghost ci = cache@;
        proof {
            assert(b0[i as int].0 == a);
            assert(!done.contains(a)) by {
                if done.contains(a) {
                    let j = choose|j: int| 0 <= j < i && addrs@.take(i as int)[j] == a;
                    assert(b0[j].0 == a);
                }
            }
            assert(has_prefix(b0, a));
            lemma_map_entry(ci, a);
            lemma_map_entry(c0, a);
            lemma_map_entry(bi, a);
            lemma_map_entry(b0, a);
            assert(table_map(bi).dom().contains(a));
            assert(table_map(bi)[a] == paths_for(b0, a));
            if has_prefix(c0, a) {
                assert(table_map(ci).dom().contains(a));
                assert(table_map(ci)[a] == paths_for(c0, a));
            } else {
                assert(!table_map(ci).dom().contains(a));
            }
            assert(paths_for(ci, a) == paths_for(c0, a));
            assert(paths_for(bi, a) == paths_for(b0, a));
        }
        let taken = cache.remove_prefix(&a);
        batch.insert_all(a, taken);
        proof {
            let next = addrs@.take(i + 1).to_set();
            assert(next =~= done.insert(a)) by {
                assert(addrs@.take(i + 1) =~= addrs@.take(i as int).push(a));
                lemma_push_to_set(addrs@.take(i as int), a);
            }
            assert(table_map(cache@) =~= table_map(c0).remove_keys(next));
            lemma_map_entry(batch@, a);
            assert(table_map(batch@) =~= merged_upto(b0, c0, next));
        }
        i = i + 1;
    }
    proof {
        assert(addrs@.take(i as int) =~= addrs@);
        assert forall|x: Address| addrs@.to_set().contains(x) == table_map(b0).dom().contains(x) by {
            if addrs@.to_set().contains(x) {
                let j = choose|j: int| 0 <= j < addrs@.len() && addrs@[j] == x;
                assert(b0[j].0 == x);
            }
            if has_prefix(b0, x) {
                let j = choose|j: int| 0 <= j < b0.len() && (#[trigger] b0[j]).0 == x;
                assert(addrs@[j] == x);
                assert(addrs@.contains(x));
            }
        }
        assert(addrs@.to_set() =~= table_map(b0).dom());
        assert(merged_upto(b0, c0, addrs@.to_set()) =~= merged(b0, c0));
    }
}

proof fn lemma_push_to_set(s: Seq<Address>, a: Address)
    ensures
        s.push(a).to_set() == s.to_set().insert(a),
{
    let t = s.push(a);
    assert forall|x: Address| t.to_set().contains(x) <==> s.to_set().insert(a).contains(x) by {
        if t.contains(x) {
            let j = choose|j: int| 0 <= j < t.len() && t[j] == x;
            if j < s.len() {
                assert(s[j] == x);
            }
        }
        if s.contains(x) {
            let j = choose|j: int| 0 <= j < s.len() && s[j] == x;
            assert(t[j] == x);
        }
        if x == a {
            assert(t[s.len() as int] == a);
        }
    }
    assert(t.to_set() =~= s.to_set().insert(a));
}

/// The upper leading byte (inclusive) of bin `k` when bins are `width` wide.
pub open spec fn bin_end_spec(k: int, width: int) -> int {
    if k * width + width > 255 {
        255
    } else {
        k * width + width
    }
}

/// The upper bounds of the bins that cover the leading bytes: bins start at
/// 0, `width`, `2 * width`, ... below 255, and the last one is cut at 255.
pub fn bin_ends(width: u8) -> (r: Vec<u8>)
    requires
        width > 0,
    ensures
        r@.len() == (254int / width as int) + 1,
        forall|k: int| 0 <= k < r@.len() ==> r@[k] as int == bin_end_spec(k, width as int),
{
    let mut r: Vec<u8> = Vec::new();
    let mut start: u32 = 0;
    let ghost w = width as int;
    proof {
        assert(r@.len() * w == 0);
    }
    while start < 255
        invariant
            w == width as int,
            w > 0,
            start as int == r@.len() * w,
            start <= 510,
            r@.len() <= (254int / w) + 1,
            start < 255 ==> r@.len() <= 254int / w,
            start >= 255 ==> r@.len() == (254int / w) + 1,
            forall|k: int| 0 <= k < r@.len() ==> r@[k] as int == bin_end_spec(k, w),
        decreases 510 - start,
    {
        let end: u32 = if start + (width as u32) > 255 { 255 } else { start + width as u32 };
        r.push(end as u8);
        proof {
            let n = r@.len() - 1;
            assert(start as int == n * w);
            assert(n * w + w == (n + 1) * w) by (nonlinear_arith);
            lemma_bin_count(n, w);
        }
        start = start + width as u32;
    }
    r
}

proof fn lemma_bin_count(n: int, w: int)
    requires
        w > 0,
        n >= 0,
        n * w < 255,
    ensures
        n <= 254int / w,
        (n + 1) * w < 255 ==> n + 1 <= 254int / w,
        (n + 1) * w >= 255 ==> n + 1 == (254int / w) + 1,
{
    assert(n * w <= 254);
    assert(n <= 254int / w) by (nonlinear_arith)
        requires
            n * w <= 254,
            w > 0,
    ;
    if (n + 1) * w < 255 {
        assert(n + 1 <= 254int / w) by (nonlinear_arith)
            requires
                (n + 1) * w <= 254,
                w > 0,
        ;
    } else {
        assert(254int / w < n + 1) by (nonlinear_arith)
            requires
                (n + 1) * w > 254,
                w > 0,
        ;
    }
}

} // verus!
