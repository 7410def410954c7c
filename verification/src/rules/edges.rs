//! Which density rows leave a strip along the die edge unchecked.
use crate::deck::{Deck, ErcError};
use crate::filing::{head_holds, row_at, Kind};
use crate::geom::{Bbox, Point};
use crate::rules::density::{position_count, DensityCmpTable, DensityRow};
use crate::ruleset::{
    fault_at, first_fault, lemma_density_held, lemma_rows_below, rows_of, RuleSet,
};
use crate::text::StrTable;
use vstd::arithmetic::div_mod::{lemma_fundamental_div_mod, lemma_fundamental_div_mod_converse};
use vstd::prelude::*;

verus! {

/// Whether the last whole window along a span ends exactly at its far edge.
pub open spec fn reaches(span: int, window: int, step: int) -> bool {
    window <= span && (span - window) % step == 0
}

/// Whether the steps of a grid cover both far edges of a die exactly.
pub open spec fn covers_edges(die: Bbox, window: (i64, i64), step: (i64, i64)) -> bool {
    &&& reaches(die.xhi - die.xlo, window.0 as int, step.0 as int)
    &&& reaches(die.yhi - die.ylo, window.1 as int, step.1 as int)
}

impl DensityCmpTable {
    /// Whether row `r` lays windows, skips those the die clips, and so leaves a strip
    /// along the die edge unchecked.
    pub open spec fn leaves_strip(&self, die: Bbox, r: int) -> bool {
        &&& self.window@[r].0 > 0 && self.window@[r].1 > 0
        &&& self.step@[r].0 > 0 && self.step@[r].1 > 0
        &&& !self.include_partial_windows@[r]
        &&& !covers_edges(die, self.window@[r], self.step@[r])
    }

    /// The first row that leaves a strip along the edge of a die unchecked, which a
    /// deck meant for that die must not have.
    pub fn first_strip(&self, die: Bbox) -> (r: Option<usize>)
        requires
            self.wf(),
            die.wf(),
        ensures
            match r {
                Some(at) => at < self.head.rows() && self.leaves_strip(die, at as int)
                    && forall|k: int| 0 <= k < at ==> !(#[trigger] self.leaves_strip(die, k)),
                None => forall|k: int|
                    0 <= k < self.head.rows() ==> !(#[trigger] self.leaves_strip(die, k)),
            },
    {
        let rows: usize = self.head.len();
        let mut r: usize = 0;
        while r < rows
            invariant
                self.wf(),
                die.wf(),
                rows == self.head.rows(),
                r <= rows,
                forall|k: int| 0 <= k < r ==> !(#[trigger] self.leaves_strip(die, k)),
            decreases rows - r,
        {
            let (window, step) = (self.window[r], self.step[r]);
            if window.0 > 0 && window.1 > 0 && step.0 > 0 && step.1 > 0
                && !self.include_partial_windows[r] {
                let w: i64 = die.xhi - die.xlo;
                let h: i64 = die.yhi - die.ylo;
                let whole: bool = window.0 <= w && (w - window.0) % step.0 == 0 && window.1 <= h
                    && (h - window.1) % step.1 == 0;
                if !whole {
                    return Some(r);
                }
            }
            r = r + 1;
        }
        None
    }
}

/// Whether an error names density row `k` of a set, the first that leaves a strip
/// along the edge of a die unchecked.
pub open spec fn names_strip(
    set: RuleSet,
    strings: &StrTable,
    die: Bbox,
    k: int,
    e: ErcError,
) -> bool {
    &&& 0 <= k < set.density_cmp.head.rows()
    &&& set.density_cmp.leaves_strip(die, k)
    &&& forall|j: int| 0 <= j < k ==> !(#[trigger] set.density_cmp.leaves_strip(die, j))
    &&& match e {
        ErcError::UncheckedEdge(rule) => rule@ == strings.text_of(set.density_cmp.head.rule@[k]),
        _ => false,
    }
}

impl RuleSet {
    /// Build the tables from a deck meant for a given die.
    ///
    /// Fails as [`RuleSet::from_deck`] does, and further rejects a density row that
    /// skips clipped windows without its steps covering both edges of the die exactly:
    /// such a row would leave a strip along the edge unchecked.
    pub fn from_deck_over(deck: &Deck, strings: &StrTable, die: Bbox) -> (r: Result<
        RuleSet,
        ErcError,
    >)
        requires
            deck.wf(strings),
            die.wf(),
        ensures
            match r {
                Ok(set) => loads(deck, strings, set) && forall|k: int|
                    0 <= k < set.density_cmp.head.rows() ==> !(
                    #[trigger] set.density_cmp.leaves_strip(die, k)),
                Err(e) => refuses(deck, strings, e) || exists|set: RuleSet, k: int|
                    loads(deck, strings, set) && #[trigger] names_strip(set, strings, die, k, e),
            },
    {
        let set = match RuleSet::from_deck(deck, strings) {
            Ok(set) => set,
            Err(e) => {
                return Err(e);
            },
        };
        proof {
            lemma_loaded_density(deck, strings, set);
        }
        match set.density_cmp.first_strip(die) {
            None => Ok(set),
            Some(at) => {
                let e = strip_error(&set.density_cmp, deck, strings, at);
                assert(names_strip(set, strings, die, at + 0, e));
                Err(e)
            },
        }
    }
}

/// Whether a deck loads as a set of tables: no row of it is at fault, and the tables
/// hold its rows.
pub open spec fn loads(deck: &Deck, strings: &StrTable, set: RuleSet) -> bool {
    &&& forall|s: int|
        0 <= s < deck.rules.rows() ==> (#[trigger] fault_at(&deck.rules, strings, s)) is None
    &&& set.holds(&deck.rules, strings, deck.rules.spec@.len())
}

/// Whether an error reports the first row of a deck that is at fault.
pub open spec fn refuses(deck: &Deck, strings: &StrTable, e: ErcError) -> bool {
    exists|s: int| #[trigger]
        first_fault(&deck.rules, strings, s) && e.reports(
            row_at(&deck.rules, strings, s as u32).title(),
            fault_at(&deck.rules, strings, s)->0,
        )
}

/// A loaded density table holds the deck's density rows.
proof fn lemma_loaded_density(deck: &Deck, strings: &StrTable, set: RuleSet)
    requires
        loads(deck, strings, set),
    ensures
        set.density_cmp.wf(),
        head_holds(
            &set.density_cmp.head,
            &deck.rules,
            strings,
            rows_of(&deck.rules, strings, Kind::DensityCmp, deck.rules.spec@.len()),
        ),
{
    lemma_density_held(&set, &deck.rules, strings, deck.rules.spec@.len());
}

/// The error a density row that leaves a strip is refused with.
fn strip_error(table: &DensityCmpTable, deck: &Deck, strings: &StrTable, at: usize) -> (e: ErcError)
    requires
        deck.wf(strings),
        head_holds(
            &table.head,
            &deck.rules,
            strings,
            rows_of(&deck.rules, strings, Kind::DensityCmp, deck.rules.spec@.len()),
        ),
        at < table.head.rows(),
    ensures
        match e {
            ErcError::UncheckedEdge(rule) => rule@ == strings.text_of(table.head.rule@[at as int]),
            _ => false,
        },
{
    let ghost n = deck.rules.spec@.len();
    let ghost rows = rows_of(&deck.rules, strings, Kind::DensityCmp, n);
    proof {
        lemma_rows_below(&deck.rules, strings, Kind::DensityCmp, n);
        assert(rows[at as int] < n);
        assert(deck.rules.fits(strings, rows[at as int] as int));
    }
    ErcError::UncheckedEdge(strings.resolve(table.head.rule[at]).to_owned())
}

/// The window position that holds an offset along a span its windows reach.
proof fn lemma_position(span: int, window: int, step: int, d: int) -> (i: int)
    requires
        0 < step <= window,
        reaches(span, window, step),
        0 <= d < span,
    ensures
        0 <= i < position_count(span, step),
        i * step <= d < i * step + window,
        i * step + window <= span,
{
    let k = (span - window) / step;
    let q = d / step;
    lemma_fundamental_div_mod(span - window, step);
    lemma_fundamental_div_mod(d, step);
    lemma_fundamental_div_mod(span - 1, step);
    let last = (span - 1) / step;
    assert(step * k == k * step && step * q == q * step && step * last == last * step)
        by (nonlinear_arith);
    assert(0 <= k <= last) by (nonlinear_arith)
        requires
            k * step == span - window,
            0 <= span - window,
            window >= 1,
            step > 0,
            span - 1 < last * step + step,
    ;
    assert(q >= 0) by (nonlinear_arith)
        requires
            d < q * step + step,
            d >= 0,
            step > 0,
    ;
    if q <= k {
        assert(q * step <= k * step) by (nonlinear_arith)
            requires
                q <= k,
                step > 0,
        ;
        q
    } else {
        assert(k * step <= q * step) by (nonlinear_arith)
            requires
                k <= q,
                step > 0,
        ;
        k
    }
}

/// A row that leaves no strip checks every point of the die: where its steps cover
/// both edges exactly and are no longer than its windows, each point is in a window
/// that is evaluated.
pub proof fn lemma_no_strip_checks_every_point(row: &DensityRow, p: Point) -> (s: int)
    requires
        row.wf(),
        covers_edges(row.die, row.window, row.step),
        row.step.0 <= row.window.0,
        row.step.1 <= row.window.1,
        row.die.xlo <= p.x < row.die.xhi,
        row.die.ylo <= p.y < row.die.yhi,
    ensures
        0 <= s < row.count(),
        row.counted(s),
        row.full(s).has(p.x as int, p.y as int),
{
    let i = lemma_position(
        row.die.xhi - row.die.xlo,
        row.window.0 as int,
        row.step.0 as int,
        p.x - row.die.xlo,
    );
    let j = lemma_position(
        row.die.yhi - row.die.ylo,
        row.window.1 as int,
        row.step.1 as int,
        p.y - row.die.ylo,
    );
    let nx = row.nx();
    let ny = row.ny();
    let s = j * nx + i;
    assert(0 <= s < nx * ny) by (nonlinear_arith)
        requires
            s == j * nx + i,
            0 <= i < nx,
            0 <= j < ny,
    ;
    lemma_fundamental_div_mod_converse(s, nx, j, i);
    s
}

} // verus!
