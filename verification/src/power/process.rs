//! The process a network is built from: which layers conduct, how well, and how
//! the shapes are joined.
use crate::geom::{max_int, min_int, Bbox, Point, MAX_ABS_DBU};
use crate::model::{LayerId, PolyId};
use crate::number::{magnitude, Number};
use crate::power::network::{Grid, PowerError};
use vstd::arithmetic::power2::pow2;
use vstd::prelude::*;

verus! {

/// Which layers conduct, and which cuts join them.
pub struct Connectivity {
    pub conductors: Vec<LayerId>,
    /// Whether touching shapes of one layer are joined.
    pub intra_layer_touch: bool,
    /// The cut layer of each kind of via.
    pub via_cut: Vec<LayerId>,
}

/// The process data a network needs.
#[derive(Clone, Copy)]
pub struct Process<'a> {
    pub grid: Grid,
    /// Ohms per square of each layer.
    pub sheet_res_ohm_sq: &'a Vec<Number>,
    /// Height of each layer above the substrate, in nanometres.
    pub height_nm: &'a Vec<Number>,
    pub connectivity: &'a Connectivity,
}

impl Connectivity {
    /// Every layer that carries current: the conductors, then the cuts.
    pub open spec fn carrying(&self) -> Seq<LayerId> {
        self.conductors@ + self.via_cut@
    }
}

impl<'a> Process<'a> {
    /// Whether a layer has a usable sheet resistance.
    pub open spec fn usable(self, layer: LayerId) -> bool {
        &&& layer.0 < self.sheet_res_ohm_sq@.len()
        &&& Number { bits: 0 }.lt(self.sheet(layer))
        &&& self.sheet(layer).finite()
    }

    pub open spec fn sheet(self, layer: LayerId) -> Number {
        self.sheet_res_ohm_sq@[layer.0 as int]
    }

    /// Row `k` is the first carrying layer with no usable sheet resistance.
    pub open spec fn first_unusable(self, k: int) -> bool {
        let carrying = self.connectivity.carrying();
        &&& 0 <= k < carrying.len()
        &&& !self.usable(carrying[k])
        &&& forall|j: int| 0 <= j < k ==> self.usable(#[trigger] carrying[j])
    }

    /// Whether every layer that carries current has a usable sheet resistance.
    pub open spec fn all_usable(self) -> bool {
        forall|k: int|
            0 <= k < self.connectivity.carrying().len() ==> self.usable(
                #[trigger] self.connectivity.carrying()[k],
            )
    }

    /// The height of a layer; one the stack does not name is the substrate.
    pub open spec fn height(self, layer: LayerId) -> Number {
        if layer.0 < self.height_nm@.len() {
            self.height_nm@[layer.0 as int]
        } else {
            Number { bits: 0 }
        }
    }

    pub fn height_of(self, layer: LayerId) -> (r: Number)
        ensures
            r == self.height(layer),
    {
        if (layer.0 as usize) < self.height_nm.len() {
            self.height_nm[layer.0 as usize]
        } else {
            Number { bits: 0 }
        }
    }

    fn is_usable(self, layer: LayerId) -> (r: bool)
        ensures
            r == self.usable(layer),
    {
        (layer.0 as usize) < self.sheet_res_ohm_sq.len() && {
            let v = self.sheet_res_ohm_sq[layer.0 as usize];
            Number { bits: 0 }.less(v) && v.is_finite()
        }
    }

    /// Refuse a process that gives a carrying layer no usable sheet resistance:
    /// a missing, zero, negative or non-finite one. A zero in particular shorts
    /// a whole rail and makes a bad grid read clean.
    pub fn check_sheets(self) -> (r: Result<(), PowerError>)
        ensures
            r is Ok <==> self.all_usable(),
            r is Err ==> exists|k: int| #[trigger]
                self.first_unusable(k) && r->Err_0 == PowerError::NoSheetResistance(
                    self.connectivity.carrying()[k],
                ),
    {
        let conductors: usize = self.connectivity.conductors.len();
        let mut k: usize = 0;
        while k < conductors
            invariant
                k <= conductors == self.connectivity.conductors@.len(),
                forall|j: int|
                    0 <= j < k ==> self.usable(#[trigger] self.connectivity.carrying()[j]),
            decreases conductors - k,
        {
            let layer = self.connectivity.conductors[k];
            assert(self.connectivity.carrying()[k as int] == layer);
            if !self.is_usable(layer) {
                assert(self.first_unusable(k as int));
                return Err(PowerError::NoSheetResistance(layer));
            }
            k = k + 1;
        }
        let cuts: usize = self.connectivity.via_cut.len();
        let mut c: usize = 0;
        while c < cuts
            invariant
                c <= cuts == self.connectivity.via_cut@.len(),
                conductors == self.connectivity.conductors@.len(),
                forall|j: int|
                    0 <= j < conductors + c ==> self.usable(
                        #[trigger] self.connectivity.carrying()[j],
                    ),
            decreases cuts - c,
        {
            let layer = self.connectivity.via_cut[c];
            assert(self.connectivity.carrying()[conductors + c] == layer);
            if !self.is_usable(layer) {
                assert(self.first_unusable(conductors + c));
                return Err(PowerError::NoSheetResistance(layer));
            }
            c = c + 1;
        }
        Ok(())
    }
}

/// Which of the first `layers` layers conduct.
pub fn conductor_mask(connectivity: &Connectivity, layers: usize) -> (r: Vec<bool>)
    ensures
        r@.len() == layers,
        forall|l: int|
            0 <= l < layers && l <= u32::MAX ==> #[trigger] r@[l]
                == connectivity.conductors@.contains(LayerId(l as u32)),
{
    let mut r: Vec<bool> = Vec::new();
    let mut l: usize = 0;
    while l < layers
        invariant
            l <= layers,
            r@.len() == l,
            forall|i: int| 0 <= i < l ==> !(#[trigger] r@[i]),
        decreases layers - l,
    {
        r.push(false);
        l = l + 1;
    }
    let mut k: usize = 0;
    while k < connectivity.conductors.len()
        invariant
            k <= connectivity.conductors@.len(),
            r@.len() == layers,
            forall|l: int|
                0 <= l < layers && l <= u32::MAX ==> #[trigger] r@[l]
                    == connectivity.conductors@.take(k as int).contains(LayerId(l as u32)),
        decreases connectivity.conductors@.len() - k,
    {
        let layer = connectivity.conductors[k];
        let ghost before = connectivity.conductors@.take(k as int);
        let ghost now = connectivity.conductors@.take(k + 1);
        let ghost marked = r@;
        if (layer.0 as usize) < layers {
            r.set(layer.0 as usize, true);
        }
        proof {
            assert(now =~= before.push(layer));
            assert forall|l: int| 0 <= l < layers && l <= u32::MAX implies #[trigger] r@[l]
                == now.contains(LayerId(l as u32)) by {
                let id = LayerId(l as u32);
                if before.contains(id) {
                    let x = choose|x: int| 0 <= x < before.len() && before[x] == id;
                    assert(now[x] == id);
                }
                if id == layer {
                    assert(now[k as int] == id);
                }
                if now.contains(id) && id != layer {
                    let x = choose|x: int| 0 <= x < now.len() && now[x] == id;
                    assert(before[x] == id);
                }
                assert(marked[l] == before.contains(id));
            }
        }
        k = k + 1;
    }
    assert(connectivity.conductors@.take(k as int) =~= connectivity.conductors@);
    r
}

/// A connection between two polygons: through a layer they touch on, or through
/// one cut.
#[derive(Clone, Copy, Debug, PartialEq, Eq, Structural)]
pub struct Link {
    pub a: PolyId,
    pub b: PolyId,
    pub layer: LayerId,
}

/// The touching pairs the connectivity scan found.
pub struct Contacts {
    /// For each conductor, the pairs of its polygons that touch.
    pub touch: Vec<Vec<(u32, u32)>>,
    /// For each via row, the pairs a cut joins, one entry per cut.
    pub cut: Vec<Vec<(u32, u32)>>,
}

/// Every connection between two conductor polygons, split by kind.
pub struct Connections {
    /// Touching pairs on one conductor layer, with that layer.
    pub metal: Vec<Link>,
    /// Cut-joined pairs, with the cut layer: an array of four cuts is four
    /// parallel rows.
    pub via: Vec<Link>,
}

/// A row of pairs as links on one layer.
pub open spec fn on_layer(pairs: Seq<(u32, u32)>, layer: LayerId) -> Seq<Link> {
    Seq::new(
        pairs.len(),
        |i: int| Link { a: PolyId(pairs[i].0), b: PolyId(pairs[i].1), layer },
    )
}

/// The links of the first `n` rows, row after row.
pub open spec fn links_of(layers: Seq<LayerId>, pairs: Seq<Vec<(u32, u32)>>, n: nat) -> Seq<Link>
    decreases n,
{
    if n == 0 {
        Seq::empty()
    } else {
        links_of(layers, pairs, (n - 1) as nat) + on_layer(pairs[n - 1]@, layers[n - 1])
    }
}

/// Every link is on one of the layers its row names.
pub proof fn lemma_links_of(layers: Seq<LayerId>, pairs: Seq<Vec<(u32, u32)>>, n: nat)
    requires
        n <= layers.len(),
    ensures
        forall|i: int|
            0 <= i < links_of(layers, pairs, n).len() ==> layers.contains(
                (#[trigger] links_of(layers, pairs, n)[i]).layer,
            ),
    decreases n,
{
    if n > 0 {
        let m = (n - 1) as nat;
        lemma_links_of(layers, pairs, m);
        let before = links_of(layers, pairs, m);
        let now = links_of(layers, pairs, n);
        assert forall|i: int| 0 <= i < now.len() implies layers.contains(
            (#[trigger] now[i]).layer,
        ) by {
            if i < before.len() {
                assert(layers.contains(before[i].layer));
            } else {
                assert(now[i].layer == layers[m as int]);
            }
        }
    }
}

/// The connections within conductor layers; none where touching does not join.
pub open spec fn metal_links(connectivity: &Connectivity, contacts: &Contacts) -> Seq<Link> {
    if connectivity.intra_layer_touch {
        links_of(connectivity.conductors@, contacts.touch@, connectivity.conductors@.len())
    } else {
        Seq::empty()
    }
}

/// The connections through cuts.
pub open spec fn via_links(connectivity: &Connectivity, contacts: &Contacts) -> Seq<Link> {
    links_of(connectivity.via_cut@, contacts.cut@, connectivity.via_cut@.len())
}

impl Contacts {
    /// One list per conductor and per via row.
    pub open spec fn fits(&self, connectivity: &Connectivity) -> bool {
        &&& self.touch@.len() == connectivity.conductors@.len()
        &&& self.cut@.len() == connectivity.via_cut@.len()
    }
}

fn push_links(layers: &Vec<LayerId>, pairs: &Vec<Vec<(u32, u32)>>) -> (r: Vec<Link>)
    requires
        pairs@.len() == layers@.len(),
    ensures
        r@ == links_of(layers@, pairs@, layers@.len()),
{
    let mut r: Vec<Link> = Vec::new();
    let mut n: usize = 0;
    while n < layers.len()
        invariant
            n <= layers@.len() == pairs@.len(),
            r@ == links_of(layers@, pairs@, n as nat),
        decreases layers@.len() - n,
    {
        let layer = layers[n];
        let row = &pairs[n];
        let ghost before = r@;
        let mut i: usize = 0;
        assert(r@ =~= before + on_layer(row@, layer).take(0));
        while i < row.len()
            invariant
                i <= row@.len(),
                r@ == before + on_layer(row@, layer).take(i as int),
            decreases row@.len() - i,
        {
            let pair = row[i];
            r.push(Link { a: PolyId(pair.0), b: PolyId(pair.1), layer });
            i = i + 1;
            assert(r@ =~= before + on_layer(row@, layer).take(i as int));
        }
        n = n + 1;
        assert(on_layer(row@, layer).take(i as int) =~= on_layer(row@, layer));
    }
    r
}

/// Every connection, in scan order.
pub fn connections(connectivity: &Connectivity, contacts: &Contacts) -> (r: Connections)
    requires
        contacts.fits(connectivity),
    ensures
        r.metal@ == metal_links(connectivity, contacts),
        r.via@ == via_links(connectivity, contacts),
{
    let metal: Vec<Link> = if connectivity.intra_layer_touch {
        push_links(&connectivity.conductors, &contacts.touch)
    } else {
        Vec::new()
    };
    Connections { metal, via: push_links(&connectivity.via_cut, &contacts.cut) }
}

/// A box's narrow dimension.
pub open spec fn narrow_side(b: Bbox) -> int {
    min_int(b.xhi - b.xlo, b.yhi - b.ylo)
}

/// The width a current density divides by: the narrower shape's narrow side, at
/// least one unit.
pub open spec fn conductor_width_spec(a: Bbox, b: Bbox) -> int {
    max_int(1, min_int(narrow_side(a), narrow_side(b)))
}

fn narrow_of(b: Bbox) -> (r: i64)
    requires
        b.wf(),
    ensures
        r == narrow_side(b),
        0 <= r <= 2 * MAX_ABS_DBU,
{
    let w: i64 = b.xhi - b.xlo;
    let h: i64 = b.yhi - b.ylo;
    if w < h { w } else { h }
}

pub fn conductor_width(a: Bbox, b: Bbox) -> (r: i64)
    requires
        a.wf(),
        b.wf(),
    ensures
        r == conductor_width_spec(a, b),
        1 <= r <= 2 * MAX_ABS_DBU,
{
    let p: i64 = narrow_of(a);
    let q: i64 = narrow_of(b);
    let n: i64 = if p < q { p } else { q };
    if n < 1 { 1 } else { n }
}

pub open spec fn gap(a: int, b: int) -> int {
    if a < b { b - a } else { a - b }
}

/// The length between two taps, as routing runs: across and then up. At least
/// one unit, because a zero length would exempt a segment from electromigration.
pub open spec fn run_length_spec(from: Point, to: Point) -> int {
    max_int(1, gap(from.x as int, to.x as int) + gap(from.y as int, to.y as int))
}

pub fn run_length(from: Point, to: Point) -> (r: i64)
    requires
        from.wf(),
        to.wf(),
    ensures
        r == run_length_spec(from, to),
        1 <= r <= 4 * MAX_ABS_DBU,
{
    let dx: i64 = if from.x < to.x { to.x - from.x } else { from.x - to.x };
    let dy: i64 = if from.y < to.y { to.y - from.y } else { from.y - to.y };
    let span: i64 = dx + dy;
    if span < 1 { 1 } else { span }
}

/// One thousandth, the micrometres in a nanometre.
pub const UM_PER_NM: u64 = 0x3F50_624D_D2F1_A9FC;

/// The bits of `2^40`, the largest coordinate.
pub const LONGEST: u64 = 0x4270_0000_0000_0000;

/// A length in database units from a real one: rounded to the nearest unit,
/// halves away from zero, and kept between one unit and the largest coordinate.
/// What is not a number is one unit long.
pub open spec fn length_of(x: Number) -> int {
    if x.is_nan_spec() || x.negative() {
        1
    } else if x.pattern() >= LONGEST {
        MAX_ABS_DBU as int
    } else {
        clamp_length((2 * magnitude(x.pattern()) + pow2(1074)) as int / (2 * pow2(1074)) as int)
    }
}

pub open spec fn clamp_length(v: int) -> int {
    max_int(1, min_int(v, MAX_ABS_DBU as int))
}

/// How long a via is: the height the stack puts between its two conductors.
pub open spec fn via_length_spec(process: Process, lower: LayerId, upper: LayerId) -> int {
    length_of(
        process.height(upper).minus_spec(process.height(lower)).magnitude_spec().times_spec(
            Number { bits: UM_PER_NM },
        ).times_spec(Number::of_spec(process.grid.dbu_per_um as int)),
    )
}

pub fn via_length(process: Process, lower: LayerId, upper: LayerId) -> (r: i64)
    ensures
        r == via_length_spec(process, lower, upper),
        1 <= r <= MAX_ABS_DBU,
{
    let rise = process.height_of(upper).minus(process.height_of(lower)).absolute();
    let x = rise.times(Number { bits: UM_PER_NM }).times(
        Number::of(process.grid.dbu_per_um as i128),
    );
    if x.is_nan() {
        return 1;
    }
    if x.bits >= 0x8000_0000_0000_0000 {
        return 1;
    }
    if x.bits >= LONGEST {
        return MAX_ABS_DBU;
    }
    let v: u64 = x.rounded();
    if v < 1 {
        1
    } else if v > MAX_ABS_DBU as u64 {
        MAX_ABS_DBU
    } else {
        v as i64
    }
}

/// Squares of conductor in a segment: the ratio of two lengths.
pub open spec fn squares_spec(length: int, width: int) -> Number {
    Number::of_spec(length).over_spec(Number::of_spec(width))
}

pub fn squares(length: i64, width: i64) -> (r: Number)
    ensures
        r == squares_spec(length as int, width as int),
{
    Number::of(length as i128).over(Number::of(width as i128))
}

} // verus!
