//! The range extractor: a pure, total analysis that scans an arbitrary byte
//! buffer and discovers every maximal decodable text region, together with a
//! bitmap of the byte offsets at which a Unicode scalar value begins.

use vstd::prelude::*;

use std::collections::VecDeque;
use std::rc::Rc;

use crate::bits::bits_of;
use crate::bits::bitvec_max_bits;
use crate::bits::BoundaryBitmap;
use crate::utf8::char_starts;
use crate::utf8::lemma_char_starts_bounds;
use crate::utf8::lemma_decode_step;
use crate::utf8::lemma_interior_not_start;
use crate::utf8::lemma_prefix_end_bounds;
use crate::utf8::lemma_prefix_end_stops;
use crate::utf8::prefix_end;
use crate::utf8::scalar_len;
use crate::utf8::scalar_len_at;

verus! {

/// Metadata which stores the list of pre-computed string-like ranges in the
/// input.  The list is reference-counted, never cloned, so every consumer
/// reads the same immutable analysis result.
#[derive(Clone)]
pub struct UnicodeIdentificationMetadata {
    ranges: Rc<Vec<(usize, BoundaryBitmap)>>,
}

impl View for UnicodeIdentificationMetadata {
    type V = Seq<(usize, BoundaryBitmap)>;

    closed spec fn view(&self) -> Seq<(usize, BoundaryBitmap)> {
        self.ranges@
    }
}

impl UnicodeIdentificationMetadata {
    /// The list of pre-computed string-like ranges in the input.
    pub fn ranges(&self) -> (r: &Vec<(usize, BoundaryBitmap)>)
        ensures
            r@ == self@,
    {
        &*self.ranges
    }
}

impl Default for UnicodeIdentificationMetadata {
    /// Metadata with no ranges, as an analysis of an empty buffer yields.
    fn default() -> (res: Self)
        ensures
            res@.len() == 0,
    {
        UnicodeIdentificationMetadata { ranges: Rc::new(Vec::new()) }
    }
}

/// One well-formed string range `(i, bits)` of buffer `s`: the bitmap spans
/// exactly the maximal decodable region starting at `i`, and bit `t` is set
/// exactly when a scalar value begins at absolute offset `i + t` under the
/// greedy decode from `i`.
pub open spec fn range_ok(s: Seq<u8>, r: (usize, BoundaryBitmap)) -> bool {
    let i = r.0 as int;
    let bits = bits_of(r.1);
    &&& 0 <= i < s.len()
    &&& scalar_len(s, i) != 0
    &&& bits.len() == prefix_end(s, i) - i
    &&& 0 < bits.len()
    &&& i + bits.len() <= s.len()
    &&& forall|t: int| 0 <= t < bits.len() ==> bits[t] == char_starts(s, i).contains(i + t)
}

/// Every produced range is well formed; no two ranges share a start offset;
/// no range starts inside the span of an earlier one; and a range starts
/// only at offset 0 or right after a byte that cannot begin a scalar value
/// (the alternate re-alignment hypotheses).
pub open spec fn ranges_ok(s: Seq<u8>, rs: Seq<(usize, BoundaryBitmap)>) -> bool {
    &&& forall|p: int, q: int| 0 <= p < q < rs.len() ==> rs[p].0 != rs[q].0
    &&& forall|p: int| 0 <= p < rs.len() ==> range_ok(s, #[trigger] rs[p])
    &&& forall|p: int, q: int|
        0 <= p < q < rs.len() ==> !((#[trigger] rs[p]).0 <= (#[trigger] rs[q]).0 < range_end(
            rs[p],
        ))
    &&& forall|p: int| 0 <= p < rs.len() ==> ((#[trigger] rs[p]).0 == 0 || scalar_len(s, rs[p].0 - 1) == 0)
}

/// The offset just past range `r`'s span.
pub open spec fn range_end(r: (usize, BoundaryBitmap)) -> int {
    r.0 + bits_of(r.1).len()
}

/// Offset `x` lies within the span of one of the ranges.
pub open spec fn in_range_span(rs: Seq<(usize, BoundaryBitmap)>, x: int) -> bool {
    exists|p: int| 0 <= p < rs.len() && (#[trigger] rs[p]).0 <= x < range_end(rs[p])
}

/// What the extractor guarantees of its whole result: well-formed, pairwise
/// distinct ranges; an empty buffer yields no range; a buffer whose very
/// first byte begins a valid scalar value yields a first range at offset 0;
/// and no offset is overlooked: every offset at which a valid scalar value
/// begins is covered by some range's span.
pub open spec fn metadata_ok(s: Seq<u8>, rs: Seq<(usize, BoundaryBitmap)>) -> bool {
    &&& ranges_ok(s, rs)
    &&& s.len() == 0 ==> rs.len() == 0
    &&& (s.len() > 0 && scalar_len(s, 0) != 0) ==> rs.len() > 0 && rs[0].0 == 0
    &&& forall|x: int|
        0 <= x < s.len() && #[trigger] scalar_len(s, x) != 0 ==> in_range_span(rs, x)
}

/// Some entry of the queue equals `x`.
pub open spec fn queued(q: Seq<usize>, x: int) -> bool {
    exists|k: int| 0 <= k < q.len() && q[k] == x
}

/// The frontier discipline's ratchet, per produced range: past the range's
/// failing byte either the buffer ends, or the next offset is still queued
/// or already visited.
pub open spec fn range_next_ok(
    s: Seq<u8>,
    q: Seq<usize>,
    visited: Seq<bool>,
    r: (usize, BoundaryBitmap),
) -> bool {
    ||| range_end(r) >= s.len() - 1
    ||| queued(q, range_end(r) + 1)
    ||| visited[range_end(r) + 1]
}

proof fn lemma_queued_push(q: Seq<usize>, v: usize, x: int)
    requires
        queued(q, x) || v == x,
    ensures
        queued(q.push(v), x),
{
    if queued(q, x) {
        let k = choose|k: int| 0 <= k < q.len() && q[k] == x;
        assert(q.push(v)[k] == x);
    } else {
        assert(q.push(v)[q.len() as int] == x);
    }
}

proof fn lemma_queued_pop(q: Seq<usize>, x: int)
    requires
        q.len() > 0,
        queued(q, x),
        q[0] != x,
    ensures
        queued(q.subrange(1, q.len() as int), x),
{
    let k = choose|k: int| 0 <= k < q.len() && q[k] == x;
    assert(q.subrange(1, q.len() as int)[k - 1] == x);
}

proof fn lemma_span_push(rs: Seq<(usize, BoundaryBitmap)>, r: (usize, BoundaryBitmap), x: int)
    requires
        in_range_span(rs, x),
    ensures
        in_range_span(rs.push(r), x),
{
    let p = choose|p: int| 0 <= p < rs.len() && (#[trigger] rs[p]).0 <= x < range_end(rs[p]);
    assert(rs.push(r)[p] == rs[p]);
}

/// Popping the front of the queue keeps the ratchet facts, provided the
/// popped offset is the buffer's end or is visited by now.
proof fn lemma_aux_after_pop(
    s: Seq<u8>,
    rs: Seq<(usize, BoundaryBitmap)>,
    q0: Seq<usize>,
    qp: Seq<usize>,
    vis0: Seq<bool>,
    vis: Seq<bool>,
    i: int,
)
    requires
        q0.len() > 0,
        q0[0] == i,
        qp == q0.subrange(1, q0.len() as int),
        vis0.len() == s.len(),
        vis.len() == s.len(),
        0 < s.len(),
        forall|x: int| 0 <= x < s.len() && vis0[x] ==> vis[x],
        i == s.len() || (0 <= i < s.len() && vis[i]),
        ranges_ok(s, rs),
        queued(q0, 0) || vis0[0],
        forall|x: int|
            0 <= x < s.len() && #[trigger] vis0[x] && scalar_len(s, x) == 0 ==> (x + 1 == s.len()
                || queued(q0, x + 1) || vis0[x + 1]),
        forall|p: int| 0 <= p < rs.len() ==> range_next_ok(s, q0, vis0, #[trigger] rs[p]),
    ensures
        queued(qp, 0) || vis[0],
        forall|x: int|
            0 <= x < s.len() && #[trigger] vis[x] && vis0[x] && scalar_len(s, x) == 0 ==> (x + 1
                == s.len() || queued(qp, x + 1) || vis[x + 1]),
        forall|p: int| 0 <= p < rs.len() ==> range_next_ok(s, qp, vis, #[trigger] rs[p]),
{
    if !vis0[0] {
        if i == 0 {
            assert(vis[0]);
        } else {
            lemma_queued_pop(q0, 0);
        }
    }
    assert forall|x: int|
        0 <= x < s.len() && #[trigger] vis[x] && vis0[x] && scalar_len(s, x) == 0 implies (x + 1
        == s.len() || queued(qp, x + 1) || vis[x + 1]) by {
        if x + 1 != s.len() && !vis[x + 1] {
            assert(queued(q0, x + 1));
            if x + 1 == i {
                assert(vis[i]);
            } else {
                lemma_queued_pop(q0, x + 1);
            }
        }
    }
    assert forall|p: int| 0 <= p < rs.len() implies range_next_ok(s, qp, vis, #[trigger] rs[p]) by {
        assert(range_ok(s, rs[p]));
        let en = range_end(rs[p]);
        if en < s.len() - 1 && !vis[en + 1] {
            assert(queued(q0, en + 1));
            if en + 1 == i {
                assert(vis[i]);
            } else {
                lemma_queued_pop(q0, en + 1);
            }
        }
    }
}

/// Pushing onto the queue keeps the ratchet facts (stated over the offsets
/// already visited in `vis0`).
proof fn lemma_aux_after_push(
    s: Seq<u8>,
    rs: Seq<(usize, BoundaryBitmap)>,
    q: Seq<usize>,
    qn: Seq<usize>,
    vis0: Seq<bool>,
    vis: Seq<bool>,
    v: usize,
)
    requires
        qn == q.push(v),
        vis0.len() == s.len(),
        vis.len() == s.len(),
        0 < s.len(),
        ranges_ok(s, rs),
        queued(q, 0) || vis[0],
        forall|x: int|
            0 <= x < s.len() && #[trigger] vis[x] && vis0[x] && scalar_len(s, x) == 0 ==> (x + 1
                == s.len() || queued(q, x + 1) || vis[x + 1]),
        forall|p: int| 0 <= p < rs.len() ==> range_next_ok(s, q, vis, #[trigger] rs[p]),
    ensures
        queued(qn, 0) || vis[0],
        forall|x: int|
            0 <= x < s.len() && #[trigger] vis[x] && vis0[x] && scalar_len(s, x) == 0 ==> (x + 1
                == s.len() || queued(qn, x + 1) || vis[x + 1]),
        forall|p: int| 0 <= p < rs.len() ==> range_next_ok(s, qn, vis, #[trigger] rs[p]),
{
    if queued(q, 0) {
        lemma_queued_push(q, v, 0);
    }
    assert forall|x: int|
        0 <= x < s.len() && #[trigger] vis[x] && vis0[x] && scalar_len(s, x) == 0 implies (x + 1
        == s.len() || queued(qn, x + 1) || vis[x + 1]) by {
        if x + 1 != s.len() && !vis[x + 1] && queued(q, x + 1) {
            lemma_queued_push(q, v, x + 1);
        }
    }
    assert forall|p: int| 0 <= p < rs.len() implies range_next_ok(s, qn, vis, #[trigger] rs[p]) by {
        let en = range_end(rs[p]);
        if en < s.len() - 1 && !vis[en + 1] && queued(q, en + 1) {
            lemma_queued_push(q, v, en + 1);
        }
    }
}

/// After the frontier empties, the visit discipline has accounted for every
/// offset: each offset is visited, inside a range's span, or is the
/// undecodable byte just past a range.
proof fn lemma_visit_closure(
    s: Seq<u8>,
    rs: Seq<(usize, BoundaryBitmap)>,
    visited: Seq<bool>,
    x: int,
)
    requires
        0 < s.len(),
        visited.len() == s.len(),
        ranges_ok(s, rs),
        visited[0],
        forall|y: int|
            0 <= y < s.len() && visited[y] && #[trigger] scalar_len(s, y) != 0 ==> in_range_span(
                rs,
                y,
            ),
        forall|y: int|
            0 <= y < s.len() && #[trigger] visited[y] && scalar_len(s, y) == 0 ==> (y + 1
                == s.len() || visited[y + 1]),
        forall|p: int|
            0 <= p < rs.len() ==> (range_end(#[trigger] rs[p]) >= s.len() - 1 || visited[range_end(
                rs[p],
            ) + 1]),
        0 <= x < s.len(),
    ensures
        visited[x] || in_range_span(rs, x) || (scalar_len(s, x) == 0 && exists|p: int|
            0 <= p < rs.len() && x == range_end(#[trigger] rs[p])),
    decreases x,
{
    if x > 0 {
        lemma_visit_closure(s, rs, visited, x - 1);
        if in_range_span(rs, x - 1) {
            let p = choose|p: int|
                0 <= p < rs.len() && (#[trigger] rs[p]).0 <= x - 1 < range_end(rs[p]);
            if x < range_end(rs[p]) {
                assert(in_range_span(rs, x));
            } else {
                // x is the failing byte just past range p
                assert(range_ok(s, rs[p]));
                assert(range_end(rs[p]) == prefix_end(s, rs[p].0 as int));
                lemma_prefix_end_stops(s, rs[p].0 as int);
                assert(scalar_len(s, x) == 0);
            }
        } else if visited[x - 1] {
            // a visited offset outside every span cannot start a scalar
            // value, so the next offset was reached from it
            assert(scalar_len(s, x - 1) == 0);
            assert(visited[x]);
        } else {
            // x - 1 is the undecodable byte just past some range p
            let p = choose|p: int| 0 <= p < rs.len() && x - 1 == range_end(#[trigger] rs[p]);
            assert(range_end(rs[p]) < s.len() - 1);
            assert(visited[x]);
        }
    }
}

/// A non-empty buffer of pure ASCII admits exactly one well-formed result:
/// a single range at offset 0 spanning the whole buffer, every bit set.
pub proof fn lemma_ascii_single_range(s: Seq<u8>, rs: Seq<(usize, BoundaryBitmap)>)
    requires
        metadata_ok(s, rs),
        0 < s.len(),
        forall|j: int| 0 <= j < s.len() ==> #[trigger] s[j] <= 0x7F,
    ensures
        rs.len() == 1,
        rs[0].0 == 0,
        bits_of(rs[0].1).len() == s.len(),
        forall|t: int| 0 <= t < s.len() ==> bits_of(rs[0].1)[t],
{
    crate::utf8::lemma_ascii_decodes_fully(s, 0);
    assert(scalar_len(s, 0) == 1);
    assert(rs.len() > 0 && rs[0].0 == 0);
    assert(range_ok(s, rs[0]));
    if rs.len() > 1 {
        assert(range_ok(s, rs[1]));
        let b = rs[1].0 as int;
        if b == 0 {
            assert(rs[0].0 != rs[1].0);
        } else {
            assert(scalar_len(s, b - 1) == 1);
            assert(rs[1].0 == 0 || scalar_len(s, rs[1].0 - 1) == 0);
        }
        assert(false);
    }
    assert forall|t: int| 0 <= t < s.len() implies bits_of(rs[0].1)[t] by {
        assert(char_starts(s, 0).contains(t));
    }
}

/// Number of unset bits in a bit sequence; the extractor's termination
/// measure counts the offsets not yet visited.
pub open spec fn num_false(s: Seq<bool>) -> nat
    decreases s.len(),
{
    if s.len() == 0 {
        0
    } else {
        num_false(s.drop_last()) + (if s.last() {
            0nat
        } else {
            1nat
        })
    }
}

/// Setting a bit to true lowers `num_false` by one if it was unset and keeps
/// it otherwise.
proof fn lemma_num_false_update(s: Seq<bool>, i: int)
    requires
        0 <= i < s.len(),
    ensures
        num_false(s) == num_false(s.update(i, true)) + (if s[i] {
            0nat
        } else {
            1nat
        }),
    decreases s.len(),
{
    let t = s.update(i, true);
    if i == s.len() - 1 {
        assert(t.drop_last() =~= s.drop_last());
    } else {
        assert(t.drop_last() =~= s.drop_last().update(i, true));
        lemma_num_false_update(s.drop_last(), i);
    }
}

/// Greedy decode of the suffix starting at `start`: builds the boundary
/// bitmap of the maximal valid prefix, one bit per byte of the region.
fn scan_prefix(bytes: &Vec<u8>, start: usize) -> (bits: BoundaryBitmap)
    requires
        start < bytes@.len(),
        bytes@.len() <= bitvec_max_bits(),
    ensures
        bits_of(bits).len() == prefix_end(bytes@, start as int) - start,
        forall|t: int|
            0 <= t < bits_of(bits).len() ==> bits_of(bits)[t] == char_starts(
                bytes@,
                start as int,
            ).contains(start + t),
{
    let ghost s = bytes@;
    let mut bits = BoundaryBitmap::new();
    let mut j = start;
    proof {
        lemma_prefix_end_bounds(s, start as int);
    }
    loop
        invariant
            s == bytes@,
            s.len() <= bitvec_max_bits(),
            start <= j <= s.len(),
            prefix_end(s, j as int) == prefix_end(s, start as int),
            bits_of(bits).len() == j - start,
            forall|t: int|
                0 <= t < j - start ==> bits_of(bits)[t] == char_starts(s, start as int).contains(
                    start + t,
                ),
            forall|x: int|
                x >= j ==> char_starts(s, start as int).contains(x) == char_starts(
                    s,
                    j as int,
                ).contains(x),
        ensures
            start <= j <= s.len(),
            j == prefix_end(s, start as int),
            bits_of(bits).len() == j - start,
            forall|t: int|
                0 <= t < j - start ==> bits_of(bits)[t] == char_starts(s, start as int).contains(
                    start + t,
                ),
        decreases s.len() - j,
    {
        if j >= bytes.len() {
            proof {
                assert(j == s.len());
                assert(prefix_end(s, j as int) == j);
            }
            break ;
        }
        let k = scalar_len_at(bytes, j);
        if k == 0 {
            proof {
                assert(scalar_len(s, j as int) == 0);
                assert(prefix_end(s, j as int) == j);
            }
            break ;
        }
        proof {
            assert(1 <= k && j + k <= s.len());
            lemma_decode_step(s, j as int);
            lemma_char_starts_bounds(s, j as int);
        }
        let ghost bits_before = bits_of(bits);
        bits.push(true);
        let mut c: usize = 1;
        while c < k
            invariant
                s == bytes@,
                s.len() <= bitvec_max_bits(),
                start <= j,
                1 <= c <= k,
                k == scalar_len(s, j as int),
                j + k <= s.len(),
                bits_of(bits).len() == j - start + c,
                bits_of(bits) == bits_before.push(true) + Seq::new((c - 1) as nat, |x: int| false),
            decreases k - c,
        {
            bits.push(false);
            c += 1;
        }
        proof {
            assert forall|t: int| 0 <= t < j + k - start implies bits_of(bits)[t] == char_starts(
                s,
                start as int,
            ).contains(start + t) by {
                if t < j - start {
                    assert(bits_of(bits)[t] == bits_before[t]);
                } else if t == j - start {
                    assert(char_starts(s, j as int).contains(j as int));
                } else {
                    assert(!char_starts(s, j as int).contains(start + t));
                }
            }
        }
        j = j + k;
    }
    bits
}

/// Scans `bytes` and returns every maximal decodable text region with its
/// boundary bitmap.  Pure and total: it never fails, a zero-length buffer
/// yields an empty range list, and a buffer of pure invalid noise yields no
/// range at all.  Exploration is breadth-first over candidate start offsets:
/// offset 0 is tried first; a decode failure enqueues the offset just past
/// the failing byte; and every non-boundary offset inside a produced range is
/// enqueued as an alternate re-alignment hypothesis.  A visited set
/// guarantees each offset becomes a fresh range start at most once, so all
/// produced start offsets are pairwise distinct.
pub fn extract_metadata(bytes: &Vec<u8>) -> (meta: UnicodeIdentificationMetadata)
    requires
        bytes@.len() <= bitvec_max_bits(),
    ensures
        metadata_ok(bytes@, meta@),
{
    let ghost s = bytes@;
    let mut ranges: Vec<(usize, BoundaryBitmap)> = Vec::new();
    if bytes.len() != 0 {
        let mut queue: VecDeque<usize> = VecDeque::new();
        let mut visited = BoundaryBitmap::repeat(false, bytes.len());
        queue.push_back(0);
        proof {
            assert(queue@[0] == 0);
        }
        loop
            invariant
                s == bytes@,
                0 < s.len() <= bitvec_max_bits(),
                bits_of(visited).len() == s.len(),
                ranges_ok(s, ranges@),
                forall|p: int|
                    0 <= p < ranges@.len() ==> bits_of(visited)[#[trigger] ranges@[p].0 as int],
                scalar_len(s, 0) != 0 ==> (ranges@.len() > 0 && ranges@[0].0 == 0) || (ranges@.len()
                    == 0 && queue@.len() > 0 && queue@[0] == 0 && !bits_of(visited)[0]),
                forall|k: int| 0 <= k < queue@.len() ==> #[trigger] queue@[k] <= s.len(),
                forall|k: int|
                    0 <= k < queue@.len() ==> (#[trigger] queue@[k] == 0 || scalar_len(
                        s,
                        queue@[k] - 1,
                    ) == 0 || scalar_len(s, queue@[k] as int) == 0),
                forall|p: int, t: int|
                    0 <= p < ranges@.len() && 0 <= t < bits_of(ranges@[p].1).len()
                        && #[trigger] bits_of((#[trigger] ranges@[p]).1)[t] ==> bits_of(
                        visited,
                    )[ranges@[p].0 + t],
                queued(queue@, 0) || bits_of(visited)[0],
                forall|x: int|
                    0 <= x < s.len() && #[trigger] bits_of(visited)[x] && scalar_len(s, x) != 0
                        ==> in_range_span(ranges@, x),
                forall|x: int|
                    0 <= x < s.len() && #[trigger] bits_of(visited)[x] && scalar_len(s, x) == 0
                        ==> (x + 1 == s.len() || queued(queue@, x + 1) || bits_of(visited)[x + 1]),
                forall|p: int|
                    0 <= p < ranges@.len() ==> range_next_ok(
                        s,
                        queue@,
                        bits_of(visited),
                        #[trigger] ranges@[p],
                    ),
            ensures
                ranges_ok(s, ranges@),
                scalar_len(s, 0) != 0 ==> ranges@.len() > 0 && ranges@[0].0 == 0,
                queue@.len() == 0,
                bits_of(visited).len() == s.len(),
                bits_of(visited)[0],
                forall|x: int|
                    0 <= x < s.len() && #[trigger] bits_of(visited)[x] && scalar_len(s, x) != 0
                        ==> in_range_span(ranges@, x),
                forall|x: int|
                    0 <= x < s.len() && #[trigger] bits_of(visited)[x] && scalar_len(s, x) == 0
                        ==> (x + 1 == s.len() || bits_of(visited)[x + 1]),
                forall|p: int|
                    0 <= p < ranges@.len() ==> (range_end(#[trigger] ranges@[p]) >= s.len() - 1
                        || bits_of(visited)[range_end(ranges@[p]) + 1]),
            decreases num_false(bits_of(visited)) * (s.len() + 2) + queue@.len(),
        {
            let ghost visited0 = bits_of(visited);
            let ghost queue0 = queue@;
            let ghost queue_len0 = queue@.len();
            let i = match queue.pop_front() {
                Some(x) => x,
                None => {
                    proof {
                        assert(queue_len0 == 0);
                    }
                    break ;
                },
            };
            if i >= bytes.len() {
                proof {
                    assert(i == s.len());
                    lemma_aux_after_pop(
                        s,
                        ranges@,
                        queue0,
                        queue@,
                        visited0,
                        visited0,
                        i as int,
                    );
                }
                continue ;
            }
            if visited.get(i) {
                proof {
                    lemma_aux_after_pop(
                        s,
                        ranges@,
                        queue0,
                        queue@,
                        visited0,
                        visited0,
                        i as int,
                    );
                }
                continue ;
            }
            // `i` becomes a range-start candidate; it is never reconsidered.
            visited.set(i, true);
            proof {
                lemma_num_false_update(visited0, i as int);
                lemma_prefix_end_bounds(s, i as int);
                lemma_char_starts_bounds(s, i as int);
            }
            let ghost visited1 = bits_of(visited);
            proof {
                lemma_aux_after_pop(s, ranges@, queue0, queue@, visited0, visited1, i as int);
            }
            let bits = scan_prefix(bytes, i);
            let e = bits.len();
            proof {
                if scalar_len(s, i as int) != 0 {
                    lemma_decode_step(s, i as int);
                    lemma_prefix_end_bounds(s, i + scalar_len(s, i as int));
                }
                assert(i + e == prefix_end(s, i as int) <= s.len());
            }
            let ghost queue_p = queue@;
            // The byte just past the valid prefix is undecodable here; the
            // byte after it may begin an independent region.
            if i + e < bytes.len() {
                queue.push_back(i + e + 1);
                proof {
                    // the byte before the pushed candidate is the decode
                    // failure, which cannot begin a scalar value
                    lemma_prefix_end_stops(s, i as int);
                    assert(scalar_len(s, i + e) == 0);
                    lemma_aux_after_push(
                        s,
                        ranges@,
                        queue_p,
                        queue@,
                        visited0,
                        visited1,
                        (i + e + 1) as usize,
                    );
                    lemma_queued_push(queue_p, (i + e + 1) as usize, i + e + 1);
                }
            }
            let ghost queue1 = queue@;
            if e > 0 {
                let ghost pending = ranges@.push((i, bits));
                proof {
                    assert(scalar_len(s, i as int) != 0) by {
                        if scalar_len(s, i as int) == 0 {
                            assert(prefix_end(s, i as int) == i);
                        }
                    }
                    assert(pending[ranges@.len() as int] == (i, bits));
                    assert forall|x: int|
                        0 <= x < s.len() && #[trigger] visited1[x] && scalar_len(s, x)
                        != 0 implies in_range_span(pending, x) by {
                        if x == i as int {
                            assert(pending[ranges@.len() as int].0 <= x < range_end(
                                pending[ranges@.len() as int],
                            ));
                        } else {
                            assert(visited0[x]);
                            lemma_span_push(ranges@, (i, bits), x);
                        }
                    }
                }
                let mut t: usize = 0;
                while t < e
                    invariant
                        s == bytes@,
                        0 < s.len() <= bitvec_max_bits(),
                        t <= e,
                        i < s.len(),
                        i + e <= s.len(),
                        e > 0,
                        scalar_len(s, i as int) != 0,
                        e == bits_of(bits).len(),
                        i + e == prefix_end(s, i as int),
                        forall|u: int|
                            0 <= u < e ==> bits_of(bits)[u] == char_starts(s, i as int).contains(
                                i + u,
                            ),
                        pending == ranges@.push((i, bits)),
                        ranges_ok(s, ranges@),
                        bits_of(visited).len() == s.len(),
                        visited1.len() == s.len(),
                        visited0.len() == s.len(),
                        visited1 == visited0.update(i as int, true),
                        forall|x: int| 0 <= x < s.len() && visited1[x] ==> bits_of(visited)[x],
                        num_false(bits_of(visited)) <= num_false(visited1),
                        queue@.len() <= queue1.len() + t,
                        forall|k: int| 0 <= k < queue@.len() ==> #[trigger] queue@[k] <= s.len(),
                        forall|k: int|
                            0 <= k < queue@.len() ==> (#[trigger] queue@[k] == 0 || scalar_len(
                                s,
                                queue@[k] - 1,
                            ) == 0 || scalar_len(s, queue@[k] as int) == 0),
                        forall|p: int, t2: int|
                            0 <= p < ranges@.len() && 0 <= t2 < bits_of(ranges@[p].1).len()
                                && #[trigger] bits_of((#[trigger] ranges@[p]).1)[t2] ==> bits_of(
                                visited,
                            )[ranges@[p].0 + t2],
                        forall|u: int|
                            0 <= u < t && #[trigger] bits_of(bits)[u] ==> bits_of(visited)[i + u],
                        queued(queue@, 0) || bits_of(visited)[0],
                        forall|x: int|
                            0 <= x < s.len() && #[trigger] bits_of(visited)[x] && visited0[x]
                                && scalar_len(s, x) == 0 ==> (x + 1 == s.len() || queued(
                                queue@,
                                x + 1,
                            ) || bits_of(visited)[x + 1]),
                        forall|x: int|
                            0 <= x < s.len() && #[trigger] bits_of(visited)[x] && !visited0[x]
                                ==> (x == i as int || (i < x < i + e && scalar_len(s, x) != 0)),
                        forall|x: int|
                            0 <= x < s.len() && #[trigger] bits_of(visited)[x] && scalar_len(s, x)
                                != 0 ==> in_range_span(pending, x),
                        forall|p: int|
                            0 <= p < ranges@.len() ==> range_next_ok(
                                s,
                                queue@,
                                bits_of(visited),
                                #[trigger] ranges@[p],
                            ),
                        i + e >= s.len() || queued(queue@, i + e + 1),
                    decreases e - t,
                {
                    proof {
                        lemma_char_starts_bounds(s, i as int);
                    }
                    let ghost visited_in = bits_of(visited);
                    let ghost queue_in = queue@;
                    if bits.get(t) {
                        // this absolute offset is a determined char boundary
                        visited.set(i + t, true);
                        proof {
                            lemma_num_false_update(visited_in, i + t);
                            assert(char_starts(s, i as int).contains(i + t));
                            assert(scalar_len(s, i + t) != 0);
                            assert(pending[ranges@.len() as int] == (i, bits));
                            assert(in_range_span(pending, i + t)) by {
                                assert(pending[ranges@.len() as int].0 <= i + t < range_end(
                                    pending[ranges@.len() as int],
                                ));
                            }
                        }
                    } else {
                        // a new UTF-8 start hypothesis at the unset offset
                        queue.push_back(i + t);
                        proof {
                            // the unset offset holds a continuation byte
                            lemma_interior_not_start(s, i as int);
                            assert(!char_starts(s, i as int).contains(i + t));
                            assert(scalar_len(s, i + t) == 0);
                            lemma_aux_after_push(
                                s,
                                ranges@,
                                queue_in,
                                queue@,
                                visited0,
                                bits_of(visited),
                                (i + t) as usize,
                            );
                            if i + e < s.len() {
                                lemma_queued_push(queue_in, (i + t) as usize, i + e + 1);
                            }
                        }
                    }
                    t += 1;
                }
                proof {
                    assert(range_ok(s, (i, bits)));
                    assert forall|p: int, q: int|
                        0 <= p < q < ranges@.push((i, bits)).len() implies ranges@.push(
                        (i, bits),
                    )[p].0 != ranges@.push((i, bits))[q].0 by {
                        if q < ranges@.len() {
                            assert(ranges@[p].0 != ranges@[q].0);
                        } else {
                            assert(!visited0[i as int]);
                            assert(visited0[ranges@[p].0 as int]);
                        }
                    }
                    // the new start lies in no earlier range's span: spans
                    // hold only visited boundaries and continuation bytes
                    assert forall|p: int, q: int|
                        0 <= p < q < pending.len() implies !((#[trigger] pending[p]).0
                        <= (#[trigger] pending[q]).0 < range_end(pending[p])) by {
                        if q < ranges@.len() {
                            assert(!(ranges@[p].0 <= ranges@[q].0 < range_end(ranges@[p])));
                        } else {
                            let rp = ranges@[p];
                            assert(pending[p] == rp);
                            assert(pending[q] == (i, bits));
                            assert(range_ok(s, rp));
                            if rp.0 <= i as int && (i as int) < range_end(rp) {
                                let t0 = i - rp.0;
                                if bits_of(rp.1)[t0] {
                                    assert(visited0[rp.0 + t0]);
                                    assert(false);
                                } else {
                                    assert(!char_starts(s, rp.0 as int).contains(i as int));
                                    lemma_interior_not_start(s, rp.0 as int);
                                    assert(scalar_len(s, i as int) == 0);
                                    assert(false);
                                }
                            }
                        }
                    }
                    // the start came off the frontier: offset 0, or right
                    // after a decode failure, or a continuation offset (the
                    // last is impossible here, since the start decodes)
                    assert(i == 0 || scalar_len(s, i - 1) == 0) by {
                        assert(queue0[0] == i);
                    }
                    assert forall|p: int|
                        0 <= p < pending.len() implies ((#[trigger] pending[p]).0 == 0
                        || scalar_len(s, pending[p].0 - 1) == 0) by {
                        if p < ranges@.len() {
                            assert(pending[p] == ranges@[p]);
                        } else {
                            assert(pending[p] == (i, bits));
                        }
                    }
                }
                ranges.push((i, bits));
                proof {
                    assert(ranges@ == pending);
                    assert forall|p: int|
                        0 <= p < ranges@.len() implies bits_of(visited)[#[trigger] ranges@[p].0
                        as int] by {
                        if p < ranges@.len() - 1 {
                            assert(visited0[ranges@[p].0 as int]);
                            assert(visited1[ranges@[p].0 as int]);
                        } else {
                            assert(visited1[i as int]);
                        }
                    }
                    // every set bit of every bitmap, the new one included,
                    // marks a visited offset
                    assert forall|p: int, t2: int|
                        0 <= p < ranges@.len() && 0 <= t2 < bits_of(ranges@[p].1).len()
                            && #[trigger] bits_of((#[trigger] ranges@[p]).1)[t2] implies bits_of(
                        visited,
                    )[ranges@[p].0 + t2] by {
                        if p < ranges@.len() - 1 {
                            assert(ranges@[p] == pending[p]);
                        } else {
                            assert(ranges@[p] == (i, bits));
                        }
                    }
                    // a visited offset that cannot start a scalar value was
                    // visited before this iteration: the ratchet covers it
                    assert forall|x: int|
                        0 <= x < s.len() && #[trigger] bits_of(visited)[x] && scalar_len(s, x)
                        == 0 implies (x + 1 == s.len() || queued(queue@, x + 1) || bits_of(
                        visited,
                    )[x + 1]) by {
                        if !visited0[x] {
                            assert(x == i as int || (i < x < i + e && scalar_len(s, x) != 0));
                            assert(false);
                        }
                    }
                    // the ratchet for the new range is the failure push
                    assert forall|p: int|
                        0 <= p < ranges@.len() implies range_next_ok(
                        s,
                        queue@,
                        bits_of(visited),
                        #[trigger] ranges@[p],
                    ) by {
                        if p < ranges@.len() - 1 {
                            assert(ranges@[p] == pending[p]);
                        } else {
                            assert(ranges@[p] == (i, bits));
                            assert(range_end((i, bits)) == i + e);
                        }
                    }
                }
            } else {
                proof {
                    assert(scalar_len(s, i as int) == 0) by {
                        if scalar_len(s, i as int) != 0 {
                            assert(prefix_end(s, i as int) > i);
                        }
                    }
                    // the failed start at `i` enqueued the next offset
                    assert(i + e < s.len());
                    assert(queued(queue1, i + 1));
                    assert forall|x: int|
                        0 <= x < s.len() && #[trigger] bits_of(visited)[x] && scalar_len(s, x)
                        == 0 implies (x + 1 == s.len() || queued(queue@, x + 1) || bits_of(
                        visited,
                    )[x + 1]) by {
                        if x == i as int {
                            assert(queued(queue@, i + 1));
                        }
                    }
                    assert forall|x: int|
                        0 <= x < s.len() && #[trigger] bits_of(visited)[x] && scalar_len(s, x)
                        != 0 implies in_range_span(ranges@, x) by {
                        assert(visited0[x]);
                    }
                }
            }
            proof {
                assert(num_false(bits_of(visited)) + 1 <= num_false(visited0));
                assert(queue@.len() <= queue_len0 - 1 + 1 + e);
                assert(e <= s.len());
                assert(num_false(bits_of(visited)) * (s.len() + 2) + queue@.len() < num_false(
                    visited0,
                ) * (s.len() + 2) + queue_len0) by (nonlinear_arith)
                    requires
                        num_false(bits_of(visited)) + 1 <= num_false(visited0),
                        queue@.len() <= queue_len0 + e,
                        e <= s.len(),
                ;
            }
        }
        proof {
            // the frontier is empty: the visit discipline accounted for
            // every offset, so no decodable offset escaped the ranges
            assert forall|x: int|
                0 <= x < s.len() && #[trigger] scalar_len(s, x) != 0 implies in_range_span(
                ranges@,
                x,
            ) by {
                lemma_visit_closure(s, ranges@, bits_of(visited), x);
            }
        }
    }
    UnicodeIdentificationMetadata { ranges: Rc::new(ranges) }
}

} // verus!
