//! Where connections land on a shape, and the chain of nodes they cut it into.
use crate::geom::{centre, centre_of, in_domain, max_int, min_int, share_area, Bbox, Point};
use crate::order::{climbing, lemma_ordered, sort, Ranked};
use crate::store::is_csr;
use vstd::prelude::*;

verus! {

/// Whether a shape's resistor chain runs along x: the long axis of its box, and
/// x where the two are equal.
pub open spec fn runs_along_x(host: Bbox) -> bool {
    host.xhi - host.xlo >= host.yhi - host.ylo
}

pub fn chain_is_horizontal(host: Bbox) -> (r: bool)
    requires
        host.wf(),
    ensures
        r == runs_along_x(host),
{
    host.xhi - host.xlo >= host.yhi - host.ylo
}

/// Where a connection to `other` lands: the centre of the overlap, and the
/// centre of the other box where the two only touch.
pub open spec fn landing(host: Bbox, other: Bbox) -> Point {
    if share_area(host, other) { centre_of(host.clip(other)) } else { centre_of(other) }
}

/// A value moved into a range.
pub open spec fn clamped(v: int, lo: int, hi: int) -> int {
    max_int(lo, min_int(v, hi))
}

/// Where a connection to `other` lands on `host`, as a coordinate on the long
/// axis of `host`.
pub open spec fn tap_spec(host: Bbox, other: Bbox) -> int {
    if runs_along_x(host) {
        clamped(landing(host, other).x as int, host.xlo as int, host.xhi as int)
    } else {
        clamped(landing(host, other).y as int, host.ylo as int, host.yhi as int)
    }
}

fn clamp(v: i64, lo: i64, hi: i64) -> (r: i64)
    requires
        lo <= hi,
    ensures
        r == clamped(v as int, lo as int, hi as int),
        lo <= r <= hi,
{
    if v < lo {
        lo
    } else if hi < v {
        hi
    } else {
        v
    }
}

/// Where a connection to `other` lands on `host`.
pub fn tap_on(host: Bbox, other: Bbox) -> (r: i64)
    requires
        host.wf(),
        other.wf(),
    ensures
        r == tap_spec(host, other),
        runs_along_x(host) ==> host.xlo <= r <= host.xhi,
        !runs_along_x(host) ==> host.ylo <= r <= host.yhi,
        in_domain(r as int),
{
    let shared = Bbox {
        xlo: if host.xlo < other.xlo { other.xlo } else { host.xlo },
        ylo: if host.ylo < other.ylo { other.ylo } else { host.ylo },
        xhi: if host.xhi < other.xhi { host.xhi } else { other.xhi },
        yhi: if host.yhi < other.yhi { host.yhi } else { other.yhi },
    };
    let landed: Point = if shared.xlo < shared.xhi && shared.ylo < shared.yhi {
        centre(shared)
    } else {
        centre(other)
    };
    if chain_is_horizontal(host) {
        clamp(landed.x, host.xlo, host.xhi)
    } else {
        clamp(landed.y, host.ylo, host.yhi)
    }
}

/// The position of a tap: at its coordinate along the chain, on the centre line
/// across it.
pub open spec fn tap_point_spec(host: Bbox, along: int) -> Point {
    if runs_along_x(host) {
        Point { x: along as i64, y: centre_of(host).y }
    } else {
        Point { x: centre_of(host).x, y: along as i64 }
    }
}

/// The position of a tap sitting at `along` on the long axis of `host`.
pub fn tap_point(host: Bbox, along: i64) -> (r: Point)
    requires
        host.wf(),
        in_domain(along as int),
    ensures
        r == tap_point_spec(host, along as int),
        r.wf(),
{
    let middle = centre(host);
    if chain_is_horizontal(host) {
        Point { x: along, y: middle.y }
    } else {
        Point { x: middle.x, y: along }
    }
}

/// A place on a shape's chain.
#[derive(Clone, Copy, Debug, PartialEq, Eq, Structural)]
pub struct Tap {
    /// The shape, as a row of the shape list.
    pub shape: u32,
    /// The coordinate on the shape's long axis.
    pub along: i64,
}

impl Tap {
    /// Ascending by shape, and along the chain within one shape.
    pub open spec fn before(self, other: Tap) -> bool {
        self.shape < other.shape || (self.shape == other.shape && self.along < other.along)
    }
}

/// A request for a tap, with its number as the last key of the order.
#[derive(Clone, Copy)]
struct Asked {
    tap: Tap,
    index: u32,
}

impl Ranked for Asked {
    closed spec fn rank(self) -> int {
        (self.tap.shape * 0x1_0000_0000_0000_0000 + (self.tap.along + 0x8000_0000_0000_0000))
            * 0x1_0000_0000 + self.index
    }

    proof fn lemma_rank_is_own(a: Asked, b: Asked) {
    }

    fn not_after(self, other: Asked) -> (r: bool) {
        if self.tap.shape != other.tap.shape {
            self.tap.shape < other.tap.shape
        } else if self.tap.along != other.tap.along {
            self.tap.along < other.tap.along
        } else {
            self.index <= other.index
        }
    }
}

/// Taps strictly ascending.
pub open spec fn taps_ascend(node: Seq<Tap>) -> bool {
    forall|i: int, j: int| 0 <= i < j < node.len() ==> (#[trigger] node[i]).before(
        #[trigger] node[j],
    )
}

/// Whether node `n` stands at the place request `q` asked for.
pub open spec fn answers(request: Seq<Tap>, node: Seq<Tap>, req_node: Seq<u32>, q: int) -> bool {
    req_node[q] < node.len() && node[req_node[q] as int] == request[q]
}

/// One node per distinct requested place, ascending, and each request's node.
pub open spec fn resolves(request: Seq<Tap>, node: Seq<Tap>, req_node: Seq<u32>) -> bool {
    &&& taps_ascend(node)
    &&& req_node.len() == request.len()
    &&& forall|q: int| 0 <= q < request.len() ==> #[trigger] answers(request, node, req_node, q)
    &&& forall|i: int| 0 <= i < node.len() ==> request.contains(#[trigger] node[i])
}

/// `chain_start` gives each shape its run of nodes.
pub open spec fn chained(node: Seq<Tap>, shapes: int, chain_start: Seq<u32>) -> bool {
    &&& is_csr(chain_start, shapes, node.len() as int)
    &&& forall|i: int|
        0 <= i < node.len() ==> chain_start[(#[trigger] node[i]).shape as int] <= i
            < chain_start[node[i].shape + 1]
}

/// Every shape's taps, sorted along its chain and deduplicated: what makes a
/// polygon a chain rather than a point.
pub struct TapTable {
    /// The requests, in the order they were pushed.
    pub request: Vec<Tap>,
    /// The node each request resolved to; two requests at one place resolve to
    /// one node.
    pub req_node: Vec<u32>,
    /// The nodes, ascending by shape and then along its chain.
    pub node: Vec<Tap>,
    /// `chain_start[s] .. chain_start[s + 1]` is shape `s`'s run of nodes.
    pub chain_start: Vec<u32>,
}

impl TapTable {
    /// Every request names one of the shapes and a coordinate.
    pub open spec fn asks_of(&self, shapes: int) -> bool {
        &&& self.request@.len() < 0xFFFF_FFFF
        &&& forall|q: int|
            0 <= q < self.request@.len() ==> (#[trigger] self.request@[q]).shape < shapes
                && in_domain(self.request@[q].along as int)
    }

    /// The nodes are those of the requests.
    pub open spec fn finished(&self, shapes: int) -> bool {
        &&& resolves(self.request@, self.node@, self.req_node@)
        &&& chained(self.node@, shapes, self.chain_start@)
        &&& self.node@.len() <= self.request@.len()
    }

    pub fn new() -> (r: TapTable)
        ensures
            r.request@.len() == 0,
    {
        TapTable {
            request: Vec::new(),
            req_node: Vec::new(),
            node: Vec::new(),
            chain_start: Vec::new(),
        }
    }

    /// Ask for a tap, and get the request's number back.
    pub fn push(&mut self, shape: u32, along: i64) -> (r: u32)
        requires
            old(self).request@.len() < 0xFFFF_FFFF,
        ensures
            r == old(self).request@.len(),
            final(self).request@ == old(self).request@.push(Tap { shape, along }),
    {
        let index: u32 = self.request.len() as u32;
        self.request.push(Tap { shape, along });
        index
    }

    /// Resolve every request to a node.
    pub fn finish(&mut self, shapes: u32)
        requires
            old(self).asks_of(shapes as int),
        ensures
            final(self).request@ == old(self).request@,
            final(self).finished(shapes as int),
    {
        let (node, req_node) = resolve(&self.request, Ghost(shapes as int));
        let chain_start = chain_runs(&node, shapes);
        self.node = node;
        self.req_node = req_node;
        self.chain_start = chain_start;
    }

    /// One shape's run of nodes.
    pub fn chain_of(&self, shape: u32, Ghost(shapes): Ghost<int>) -> (r: (usize, usize))
        requires
            self.finished(shapes),
            shape < shapes,
        ensures
            r.0 == self.chain_start@[shape as int],
            r.1 == self.chain_start@[shape + 1],
            r.0 <= r.1 <= self.node@.len(),
    {
        let count: usize = self.chain_start.len();
        assert(shape + 1 < count);
        (
            self.chain_start[shape as usize] as usize,
            self.chain_start[shape as usize + 1] as usize,
        )
    }
}

fn resolve(request: &Vec<Tap>, Ghost(shapes): Ghost<int>) -> (r: (Vec<Tap>, Vec<u32>))
    requires
        request@.len() < 0xFFFF_FFFF,
        forall|q: int|
            0 <= q < request@.len() ==> (#[trigger] request@[q]).shape < shapes && in_domain(
                request@[q].along as int,
            ),
    ensures
        resolves(request@, r.0@, r.1@),
        r.0@.len() <= request@.len(),
{
    let n: usize = request.len();
    let mut asked: Vec<Asked> = Vec::new();
    let mut req_node: Vec<u32> = Vec::new();
    let mut q: usize = 0;
    while q < n
        invariant
            q <= n == request@.len() < 0xFFFF_FFFF,
            asked@.len() == q,
            req_node@.len() == q,
            forall|k: int|
                0 <= k < q ==> (#[trigger] asked@[k]).tap == request@[k] && asked@[k].index == k,
        decreases n - q,
    {
        asked.push(Asked { tap: request[q], index: q as u32 });
        req_node.push(0);
        q = q + 1;
    }
    let order = sort(&asked);
    proof {
        lemma_ordered(asked@);
        // Each request stands at exactly one place of the order.
        assert forall|k: int| 0 <= k < order@.len() implies (#[trigger] order@[k]).index
            < request@.len() && order@[k].tap == request@[order@[k].index as int] by {
            assert(asked@.contains(order@[k]));
        }
    }
    let mut node: Vec<Tap> = Vec::new();
    let mut k: usize = 0;
    while k < n
        invariant
            k <= n == request@.len() < 0xFFFF_FFFF,
            order@.len() == n,
            climbing(order@),
            req_node@.len() == n,
            forall|x: int|
                0 <= x < n ==> (#[trigger] order@[x]).index < n && order@[x].tap
                    == request@[order@[x].index as int],
            taps_ascend(node@),
            node@.len() <= k,
            k > 0 ==> node@.len() > 0 && node@.last() == order@[k - 1].tap,
            forall|x: int|
                0 <= x < k ==> answers(
                    request@,
                    node@,
                    req_node@,
                    (#[trigger] order@[x]).index as int,
                ),
            forall|i: int| 0 <= i < node@.len() ==> request@.contains(#[trigger] node@[i]),
        decreases n - k,
    {
        let here = order[k];
        let ghost nodes = node@;
        let ghost before = req_node@;
        let count: usize = node.len();
        let fresh: bool = count == 0 || node[count - 1] != here.tap;
        if fresh {
            node.push(here.tap);
        }
        assert(request@.contains(here.tap)) by {
            assert(request@[here.index as int] == here.tap);
        }
        let at: u32 = (node.len() - 1) as u32;
        req_node.set(here.index as usize, at);
        proof {
            if fresh && k > 0 {
                assert(order@[k - 1].rank() <= order@[k as int].rank());
                assert(nodes.last().before(here.tap));
                assert forall|i: int, j: int| 0 <= i < j < node@.len() implies (
                #[trigger] node@[i]).before(#[trigger] node@[j]) by {
                    if j == node@.len() - 1 {
                        if i < nodes.len() - 1 {
                            assert(nodes[i].before(nodes[nodes.len() - 1]));
                        }
                    } else {
                        assert(nodes[i].before(nodes[j]));
                    }
                }
            }
            assert forall|x: int| 0 <= x < k + 1 implies answers(
                request@,
                node@,
                req_node@,
                (#[trigger] order@[x]).index as int,
            ) by {
                if x < k {
                    assert(answers(request@, nodes, before, order@[x].index as int));
                }
            }
        }
        k = k + 1;
    }
    proof {
        assert forall|q: int| 0 <= q < request@.len() implies #[trigger] answers(
            request@,
            node@,
            req_node@,
            q,
        ) by {
            assert(order@.contains(asked@[q]));
            let x = choose|x: int| 0 <= x < order@.len() && order@[x] == asked@[q];
            assert(answers(request@, node@, req_node@, order@[x].index as int));
        }
    }
    (node, req_node)
}

fn chain_runs(node: &Vec<Tap>, shapes: u32) -> (r: Vec<u32>)
    requires
        taps_ascend(node@),
        node@.len() < 0xFFFF_FFFF,
        forall|i: int| 0 <= i < node@.len() ==> (#[trigger] node@[i]).shape < shapes,
    ensures
        chained(node@, shapes as int, r@),
{
    let mut r: Vec<u32> = Vec::new();
    r.push(0);
    let mut s: u32 = 0;
    let mut at: usize = 0;
    while s < shapes
        invariant
            s <= shapes,
            taps_ascend(node@),
            node@.len() < 0xFFFF_FFFF,
            forall|i: int| 0 <= i < node@.len() ==> (#[trigger] node@[i]).shape < shapes,
            at <= node@.len(),
            r@.len() == s + 1,
            r@[0] == 0,
            r@[s as int] == at,
            forall|i: int, j: int| 0 <= i <= j <= s ==> r@[i] <= r@[j],
            forall|i: int| 0 <= i < at ==> (#[trigger] node@[i]).shape < s,
            forall|i: int| at <= i < node@.len() ==> (#[trigger] node@[i]).shape >= s,
            forall|i: int|
                0 <= i < at ==> r@[(#[trigger] node@[i]).shape as int] <= i < r@[node@[i].shape
                    + 1],
        decreases shapes - s,
    {
        let ghost from = at;
        while at < node.len() && node[at].shape == s
            invariant
                s < shapes,
                taps_ascend(node@),
                node@.len() < 0xFFFF_FFFF,
                from <= at <= node@.len(),
                forall|i: int| from <= i < at ==> (#[trigger] node@[i]).shape == s,
            decreases node@.len() - at,
        {
            at = at + 1;
        }
        let ghost before = r@;
        r.push(at as u32);
        proof {
            assert forall|i: int| at <= i < node@.len() implies (#[trigger] node@[i]).shape >= s
                + 1 by {
                assert(node@[i].shape >= s);
                assert(node@[at as int].shape >= s);
                if i > at {
                    assert(node@[at as int].before(node@[i]));
                }
            }
            assert forall|i: int| 0 <= i < at implies r@[(#[trigger] node@[i]).shape as int] <= i
                < r@[node@[i].shape + 1] by {
                if i < from {
                    assert(before[node@[i].shape as int] <= i < before[node@[i].shape + 1]);
                }
            }
        }
        s = s + 1;
    }
    assert(at == node@.len()) by {
        if at < node@.len() {
            assert(node@[at as int].shape < shapes);
        }
    }
    r
}

} // verus!
