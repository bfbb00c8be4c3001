use vstd::prelude::*;

verus! {

/// Type code of the AS_PATH path attribute.
pub const ATTR_AS_PATH: u8 = 2;

/// Attribute flag bit telling that the length field takes two bytes.
pub const FLAG_EXTENDED_LENGTH: u8 = 0x10;

/// The four bytes of `s` from `i`, read as a big-endian number.
pub open spec fn be32(s: Seq<u8>, i: int) -> u32 {
    (s[i] as int * 0x100_0000 + s[i + 1] as int * 0x1_0000 + s[i + 2] as int * 0x100 + s[i + 3] as int) as u32
}

/// The header size of the attribute that starts at `at`.
pub open spec fn attr_head(s: Seq<u8>, at: int) -> int {
    if s[at] & FLAG_EXTENDED_LENGTH != 0 {
        4
    } else {
        3
    }
}

/// The value length of the attribute that starts at `at`.
pub open spec fn attr_len(s: Seq<u8>, at: int) -> int {
    if s[at] & FLAG_EXTENDED_LENGTH != 0 {
        s[at + 2] as int * 256 + s[at + 3] as int
    } else {
        s[at + 2] as int
    }
}

/// Where the value of the first AS_PATH attribute at or after `at` lies, as
/// (start, end); `None` where the attributes end, or are cut short, before one.
pub open spec fn find_as_path(s: Seq<u8>, at: int) -> Option<(int, int)>
    decreases s.len() - at,
{
    if at < 0 || at + 3 > s.len() {
        None
    } else if at + attr_head(s, at) > s.len() {
        None
    } else if at + attr_head(s, at) + attr_len(s, at) > s.len() {
        None
    } else if s[at + 1] == ATTR_AS_PATH {
        Some((at + attr_head(s, at), at + attr_head(s, at) + attr_len(s, at)))
    } else {
        find_as_path(s, at + attr_head(s, at) + attr_len(s, at))
    }
}

/// The AS numbers of `count` four-byte words of `s` from `start`.
pub open spec fn words(s: Seq<u8>, start: int, count: int) -> Seq<u32> {
    Seq::new(count as nat, |k: int| be32(s, start + 4 * k))
}

pub open spec fn prepend(front: Seq<u32>, rest: Option<Seq<u32>>) -> Option<Seq<u32>> {
    match rest {
        Some(r) => Some(front + r),
        None => None,
    }
}

/// The AS numbers of the path segments in `s` from `at` to `end`, in order;
/// `None` where a segment runs past `end`. Bytes too few for a segment
/// header at the end are ignored.
pub open spec fn segment_asns(s: Seq<u8>, at: int, end: int) -> Option<Seq<u32>>
    decreases end - at,
{
    if at + 2 > end {
        Some(seq![])
    } else if at + 2 + 4 * (s[at + 1] as int) > end {
        None
    } else {
        prepend(
            words(s, at + 2, s[at + 1] as int),
            segment_asns(s, at + 2 + 4 * (s[at + 1] as int), end),
        )
    }
}

/// The AS path that the path attributes `s` carry.
pub open spec fn as_path_spec(s: Seq<u8>) -> Option<Seq<u32>> {
    match find_as_path(s, 0) {
        Some((start, end)) => segment_asns(s, start, end),
        None => None,
    }
}

pub open spec fn opt_view(r: Option<Vec<u32>>) -> Option<Seq<u32>> {
    match r {
        Some(v) => Some(v@),
        None => None,
    }
}

fn read_be32(s: &[u8], i: usize) -> (r: u32)
    requires
        i + 4 <= s@.len(),
    ensures
        r == be32(s@, i as int),
{
    (s[i] as u32) * 0x100_0000 + (s[i + 1] as u32) * 0x1_0000 + (s[i + 2] as u32) * 0x100 + s[i + 3] as u32
}

/// Locates the value of the AS_PATH attribute among BGP path attributes.
fn locate_as_path(s: &[u8]) -> (r: Option<(usize, usize)>)
    ensures
        match r {
            Some((a, b)) => find_as_path(s@, 0) == Some((a as int, b as int)),
            None => find_as_path(s@, 0) is None,
        },
{
    let mut at: usize = 0;
    while at < s.len() && s.len() - at >= 3
        invariant
            at <= s@.len(),
            find_as_path(s@, 0) == find_as_path(s@, at as int),
        decreases s.len() - at,
    {
        let extended = s[at] & FLAG_EXTENDED_LENGTH != 0;
        let head: usize = if extended { 4 } else { 3 };
        if s.len() - at < head {
            return None;
        }
        let len: usize = if extended { (s[at + 2] as usize) * 256 + s[at + 3] as usize } else { s[at + 2] as usize };
        if s.len() - at - head < len {
            return None;
        }
        if s[at + 1] == ATTR_AS_PATH {
            return Some((at + head, at + head + len));
        }
        at = at + head + len;
    }
    None
}

/// Reads the AS numbers (four bytes each) of the AS_PATH attribute in BGP
/// path attributes `attrs`, nearest hop first. `None` where there is no
/// AS_PATH attribute, or where an attribute or a segment is cut short.
pub fn as_path_of(attrs: &[u8]) -> (r: Option<Vec<u32>>)
    ensures
        opt_view(r) == as_path_spec(attrs@),
{
    let (start, end) = match locate_as_path(attrs) {
        Some(range) => range,
        None => {
            return None;
        },
    };
    proof {
        lemma_find_in_bounds(attrs@, 0);
        assert(as_path_spec(attrs@) == segment_asns(attrs@, start as int, end as int));
    }
    let mut path: Vec<u32> = Vec::new();
    let mut at: usize = start;
    while at < end && end - at >= 2
        invariant
            start <= at <= end,
            end <= attrs@.len(),
            as_path_spec(attrs@) == segment_asns(attrs@, start as int, end as int),
            segment_asns(attrs@, start as int, end as int) == prepend(
                path@,
                segment_asns(attrs@, at as int, end as int),
            ),
        decreases end - at,
    {
        let count: usize = attrs[at + 1] as usize;
        if end - at - 2 < 4 * count {
            proof {
                assert(segment_asns(attrs@, at as int, end as int) is None);
                assert(segment_asns(attrs@, start as int, end as int) is None);
            }
            return None;
        }
        let ghost front = path@;
        let ghost w = words(attrs@, at + 2, count as int);
        let mut k: usize = 0;
        while k < count
            invariant
                k <= count,
                at + 2 + 4 * count <= end,
                end <= attrs@.len(),
                path@ == front + w.take(k as int),
                w == words(attrs@, at + 2, count as int),
            decreases count - k,
        {
            let asn = read_be32(attrs, at + 2 + 4 * k);
            path.push(asn);
            proof {
                assert(w.take(k + 1) =~= w.take(k as int).push(w[k as int]));
            }
            k = k + 1;
        }
        proof {
            assert(w.take(count as int) =~= w);
            let rest = segment_asns(attrs@, at + 2 + 4 * count, end as int);
            assert(segment_asns(attrs@, at as int, end as int) == prepend(w, rest));
            match rest {
                Some(r) => {
                    assert(front + (w + r) =~= (front + w) + r);
                },
                None => {},
            }
        }
        at = at + 2 + 4 * count;
    }
    proof {
        assert(segment_asns(attrs@, at as int, end as int) == Some(Seq::<u32>::empty()));
        assert(path@ + Seq::<u32>::empty() =~= path@);
    }
    Some(path)
}

proof fn lemma_find_in_bounds(s: Seq<u8>, at: int)
    ensures
        match find_as_path(s, at) {
            Some((a, b)) => 0 <= a <= b <= s.len(),
            None => true,
        },
    decreases s.len() - at,
{
    if !(at < 0 || at + 3 > s.len()) && at + attr_head(s, at) <= s.len() && at + attr_head(s, at) + attr_len(
        s,
        at,
    ) <= s.len() && s[at + 1] != ATTR_AS_PATH {
        lemma_find_in_bounds(s, at + attr_head(s, at) + attr_len(s, at));
    }
}

} // verus!
