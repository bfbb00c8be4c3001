use vstd::prelude::*;

verus! {

/// `s` with every run of equal consecutive AS numbers collapsed to one.
pub open spec fn collapse(s: Seq<u32>) -> Seq<u32>
    decreases s.len(),
{
    if s.len() == 0 {
        s
    } else {
        let c = collapse(s.drop_last());
        if c.len() > 0 && c.last() == s.last() {
            c
        } else {
            c.push(s.last())
        }
    }
}

proof fn lemma_collapse_last(s: Seq<u32>)
    requires
        s.len() > 0,
    ensures
        collapse(s).len() > 0,
        collapse(s).last() == s.last(),
{
}

/// A path and the same path with one AS number repeated in place are the
/// same path once repeats are collapsed.
pub proof fn law_repeat_collapses(a: Seq<u32>, x: u32, b: Seq<u32>)
    ensures
        collapse(a + seq![x, x] + b) == collapse(a + seq![x] + b),
    decreases b.len(),
{
    let s = a + seq![x, x] + b;
    let t = a + seq![x] + b;
    if b.len() == 0 {
        assert(s =~= (a + seq![x]).push(x));
        assert(t =~= a + seq![x]);
        assert(s.drop_last() =~= a + seq![x]);
        lemma_collapse_last(a + seq![x]);
    } else {
        law_repeat_collapses(a, x, b.drop_last());
        assert(s.drop_last() =~= a + seq![x, x] + b.drop_last());
        assert(t.drop_last() =~= a + seq![x] + b.drop_last());
    }
}

/// No two neighbours of a collapsed path are equal.
pub proof fn law_collapse_has_no_repeats(s: Seq<u32>)
    ensures
        forall|i: int| 0 <= i < collapse(s).len() - 1 ==> #[trigger] collapse(s)[i] != collapse(s)[i + 1],
    decreases s.len(),
{
    if s.len() > 0 {
        let c = collapse(s.drop_last());
        law_collapse_has_no_repeats(s.drop_last());
        assert forall|i: int| 0 <= i < collapse(s).len() - 1 implies #[trigger] collapse(s)[i]
            != collapse(s)[i + 1] by {
            if !(c.len() > 0 && c.last() == s.last()) {
                if i + 1 < c.len() {
                    assert(c[i] != c[i + 1]);
                }
            }
        }
    }
}

/// Collapses consecutive duplicate AS numbers of a path.
pub fn collapse_repeats(path: &Vec<u32>) -> (r: Vec<u32>)
    ensures
        r@ == collapse(path@),
{
    let mut out: Vec<u32> = Vec::new();
    let mut i: usize = 0;
    while i < path.len()
        invariant
            i <= path.len(),
            out@ == collapse(path@.subrange(0, i as int)),
        decreases path.len() - i,
    {
        let x = path[i];
        proof {
            assert(path@.subrange(0, i + 1).drop_last() =~= path@.subrange(0, i as int));
        }
        if out.len() == 0 || out[out.len() - 1] != x {
            out.push(x);
        }
        i = i + 1;
    }
    proof {
        assert(path@.subrange(0, i as int) =~= path@);
    }
    out
}

} // verus!
