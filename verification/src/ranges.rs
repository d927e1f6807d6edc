//! Coalescing of byte sets into contiguous inclusive ranges.
//!
//! A transition of the state graph maps a set of byte values, kept as a
//! strictly ascending vector, to one target state. To keep the rendered
//! branch conditions compact, the set is turned into the minimal ordered
//! list of contiguous inclusive ranges covering exactly the same bytes.

use vstd::prelude::*;

verus! {

/// An inclusive range of byte values, `lo..=hi`.
#[derive(Clone, Copy, Debug, PartialEq, Eq)]
pub struct ByteRange {
    pub lo: u8,
    pub hi: u8,
}

/// The byte values of `s` grow strictly from left to right.
pub open spec fn strictly_ascending(s: Seq<u8>) -> bool {
    forall|i: int, j: int| 0 <= i < j < s.len() ==> s[i] < s[j]
}

/// `b` lies inside the inclusive range `r`.
pub open spec fn in_range(r: ByteRange, b: u8) -> bool {
    r.lo <= b && b <= r.hi
}

/// Some range of `rs` contains `b`.
pub open spec fn ranges_cover(rs: Seq<ByteRange>, b: u8) -> bool {
    exists|k: int| 0 <= k < rs.len() && in_range(#[trigger] rs[k], b)
}

/// `b` occurs among the first `n` elements of `s`.
pub open spec fn byte_in_prefix(s: Seq<u8>, n: int, b: u8) -> bool {
    exists|j: int| 0 <= j < n && s[j] == b
}

/// The ranges are individually well formed, sorted ascending, pairwise
/// disjoint, and maximal: between two consecutive ranges there is a gap of
/// at least one byte value, so no two of them could be merged.
pub open spec fn ranges_wf(rs: Seq<ByteRange>) -> bool {
    &&& forall|k: int| 0 <= k < rs.len() ==> (#[trigger] rs[k]).lo <= rs[k].hi
    &&& forall|k: int| 0 <= k && k + 1 < rs.len() ==> (#[trigger] rs[k]).hi + 1 < rs[k + 1].lo
}

/// Turn a non-empty, strictly ascending vector of byte values into the
/// minimal ordered list of contiguous inclusive ranges whose union is
/// exactly the given set of bytes.
pub fn coalesce(bytes: &Vec<u8>) -> (r: Vec<ByteRange>)
    requires
        bytes@.len() > 0,
        strictly_ascending(bytes@),
    ensures
        r@.len() > 0,
        ranges_wf(r@),
        forall|b: u8|
            #![trigger ranges_cover(r@, b)]
            #![trigger bytes@.contains(b)]
            ranges_cover(r@, b) <==> bytes@.contains(b),
{
    let mut out: Vec<ByteRange> = Vec::new();
    let mut lo: u8 = bytes[0];
    let mut hi: u8 = bytes[0];
    let mut i: usize = 1;
    proof {
        assert forall|b: u8| in_range(ByteRange { lo, hi }, b)
            implies byte_in_prefix(bytes@, 1, b) by {
            assert(bytes@[0] == b);
        }
    }
    while i < bytes.len()
        invariant
            1 <= i <= bytes@.len(),
            bytes@.len() > 0,
            strictly_ascending(bytes@),
            lo <= hi,
            hi == bytes@[i - 1],
            ranges_wf(out@),
            out@.len() > 0 ==> out@[out@.len() - 1].hi + 1 < lo,
            forall|b: u8|
                #![trigger ranges_cover(out@, b)]
                #![trigger byte_in_prefix(bytes@, i as int, b)]
                (ranges_cover(out@, b) || in_range(ByteRange { lo, hi }, b))
                    <==> byte_in_prefix(bytes@, i as int, b),
        decreases bytes@.len() - i,
    {
        let ghost open0 = ByteRange { lo, hi };
        let b = bytes[i];
        assert(bytes@[i - 1] < bytes@[i as int]);
        if b == hi + 1 {
            hi = b;
            proof {
                let open1 = ByteRange { lo, hi };
                assert forall|b2: u8|
                    #![trigger ranges_cover(out@, b2)]
                    #![trigger byte_in_prefix(bytes@, i + 1, b2)]
                    (ranges_cover(out@, b2) || in_range(open1, b2))
                    implies byte_in_prefix(bytes@, i + 1, b2) by {
                    if ranges_cover(out@, b2) || in_range(open0, b2) {
                        assert(byte_in_prefix(bytes@, i as int, b2));
                        let j = choose|j: int| 0 <= j < i && bytes@[j] == b2;
                        assert(0 <= j < i + 1 && bytes@[j] == b2);
                    } else {
                        assert(b2 == b);
                        assert(bytes@[i as int] == b2);
                    }
                }
                assert forall|b2: u8|
                    #![trigger ranges_cover(out@, b2)]
                    #![trigger byte_in_prefix(bytes@, i + 1, b2)]
                    byte_in_prefix(bytes@, i + 1, b2)
                    implies (ranges_cover(out@, b2) || in_range(open1, b2)) by {
                    let j = choose|j: int| 0 <= j < i + 1 && bytes@[j] == b2;
                    if j < i {
                        assert(byte_in_prefix(bytes@, i as int, b2));
                    } else {
                        assert(b2 == b);
                    }
                }
            }
        } else {
            let closed = ByteRange { lo, hi };
            let ghost pre = out@;
            out.push(closed);
            lo = b;
            hi = b;
            proof {
                let open1 = ByteRange { lo, hi };
                assert(closed == open0);
                assert forall|k: int| 0 <= k && k + 1 < out@.len()
                    implies (#[trigger] out@[k]).hi + 1 < out@[k + 1].lo by {
                    if k + 1 < out@.len() - 1 {
                        assert(out@[k] == pre[k]);
                        assert(out@[k + 1] == pre[k + 1]);
                        assert(pre[k].hi + 1 < pre[k + 1].lo);
                    } else {
                        assert(out@[k] == pre[pre.len() - 1]);
                        assert(out@[k + 1] == closed);
                        assert(pre[pre.len() - 1].hi + 1 < open0.lo);
                    }
                }
                assert forall|b2: u8|
                    #![trigger ranges_cover(out@, b2)]
                    #![trigger byte_in_prefix(bytes@, i + 1, b2)]
                    (ranges_cover(out@, b2) || in_range(open1, b2))
                    implies byte_in_prefix(bytes@, i + 1, b2) by {
                    if in_range(open1, b2) {
                        assert(bytes@[i as int] == b2);
                    } else {
                        let k = choose|k: int| 0 <= k < out@.len() && in_range(out@[k], b2);
                        if k < out@.len() - 1 {
                            assert(in_range(pre[k], b2));
                            assert(ranges_cover(pre, b2));
                        } else {
                            assert(in_range(open0, b2));
                        }
                        assert(byte_in_prefix(bytes@, i as int, b2));
                        let j = choose|j: int| 0 <= j < i && bytes@[j] == b2;
                        assert(0 <= j < i + 1 && bytes@[j] == b2);
                    }
                }
                assert forall|b2: u8|
                    #![trigger ranges_cover(out@, b2)]
                    #![trigger byte_in_prefix(bytes@, i + 1, b2)]
                    byte_in_prefix(bytes@, i + 1, b2)
                    implies (ranges_cover(out@, b2) || in_range(open1, b2)) by {
                    let j = choose|j: int| 0 <= j < i + 1 && bytes@[j] == b2;
                    if j < i {
                        assert(byte_in_prefix(bytes@, i as int, b2));
                        if ranges_cover(pre, b2) {
                            let k = choose|k: int| 0 <= k < pre.len() && in_range(pre[k], b2);
                            assert(in_range(out@[k], b2));
                        } else {
                            assert(in_range(open0, b2));
                            assert(in_range(out@[out@.len() - 1], b2));
                        }
                    } else {
                        assert(b2 == b);
                    }
                }
            }
        }
        i += 1;
    }
    let closed = ByteRange { lo, hi };
    let ghost pre = out@;
    out.push(closed);
    proof {
        assert forall|k: int| 0 <= k && k + 1 < out@.len()
            implies (#[trigger] out@[k]).hi + 1 < out@[k + 1].lo by {
            if k + 1 < out@.len() - 1 {
                assert(out@[k] == pre[k]);
                assert(out@[k + 1] == pre[k + 1]);
                assert(pre[k].hi + 1 < pre[k + 1].lo);
            } else {
                assert(out@[k] == pre[pre.len() - 1]);
                assert(out@[k + 1] == closed);
            }
        }
        assert forall|b2: u8| ranges_cover(out@, b2)
            implies bytes@.contains(b2) by {
            let k = choose|k: int| 0 <= k < out@.len() && in_range(out@[k], b2);
            if k < out@.len() - 1 {
                assert(in_range(pre[k], b2));
                assert(ranges_cover(pre, b2));
            } else {
                assert(in_range(ByteRange { lo, hi }, b2));
            }
            assert(byte_in_prefix(bytes@, bytes@.len() as int, b2));
            let j = choose|j: int| 0 <= j < bytes@.len() && bytes@[j] == b2;
            assert(bytes@[j] == b2);
        }
        assert forall|b2: u8| bytes@.contains(b2)
            implies ranges_cover(out@, b2) by {
            let j = choose|j: int| 0 <= j < bytes@.len() && bytes@[j] == b2;
            assert(byte_in_prefix(bytes@, bytes@.len() as int, b2));
            if ranges_cover(pre, b2) {
                let k = choose|k: int| 0 <= k < pre.len() && in_range(pre[k], b2);
                assert(in_range(out@[k], b2));
            } else {
                assert(in_range(out@[out@.len() - 1], b2));
            }
        }
    }
    out
}

} // verus!
