//! The deck's rule rows, and what reading one gives.
use crate::model::{LayerId, StrId};
use crate::number::{Number, ONE};
use crate::report::Severity;
use crate::text::StrTable;
use vstd::prelude::*;

verus! {

/// Why a deck could not be turned into a rule set.
#[derive(Debug, PartialEq, Eq)]
pub enum ErcError {
    /// The deck names a rule kind nothing implements.
    UnknownKind { rule: String, kind: String },
    MissingParam { rule: String, param: &'static str },
    WrongParamType { rule: String, param: &'static str },
    WrongLayerCount { rule: String, expected: u32, found: u32 },
    /// A limit that is zero or negative.
    NonPositiveLimit { rule: String, limit: String },
    /// A fraction outside `0 ..= 1`.
    NotAFraction { rule: String, param: &'static str },
    /// The deck defines the same rule id twice.
    DuplicateRule(String),
    /// A density rule that skips clipped windows and whose steps do not cover both
    /// edges of the die exactly.
    UncheckedEdge(String),
}

/// What is wrong with a deck row.
pub ghost enum Fault {
    Missing(Seq<char>),
    WrongType(Seq<char>),
    Layers(u32, u32),
    NonPositive(Seq<char>),
    NotFraction(Seq<char>),
    Duplicate,
}

impl ErcError {
    /// Whether an error reports a fault of a named rule.
    pub open spec fn reports(self, name: Seq<char>, fault: Fault) -> bool {
        match (self, fault) {
            (ErcError::MissingParam { rule, param }, Fault::Missing(p)) => rule@ == name && param@
                == p,
            (ErcError::WrongParamType { rule, param }, Fault::WrongType(p)) => rule@ == name
                && param@ == p,
            (ErcError::WrongLayerCount { rule, expected, found }, Fault::Layers(e, f)) => rule@
                == name && expected == e && found == f,
            (ErcError::NonPositiveLimit { rule, limit }, Fault::NonPositive(p)) => rule@ == name
                && limit@ == p,
            (ErcError::NotAFraction { rule, param }, Fault::NotFraction(p)) => rule@ == name
                && param@ == p,
            (ErcError::DuplicateRule(rule), Fault::Duplicate) => rule@ == name,
            _ => false,
        }
    }
}

/// One parameter value, as the deck states it.
#[derive(Clone, Copy, Debug, PartialEq, Eq, Structural)]
pub enum ParamValue {
    /// Database units.
    Length(i64),
    /// A number in the unit its parameter fixes.
    Ratio(Number),
    Count(u32),
    Layer(LayerId),
    Flag(bool),
}

/// One rule row of the deck.
#[derive(Clone, Copy, Debug, PartialEq, Eq, Structural)]
pub struct RuleSpec {
    pub id: StrId,
    pub kind: StrId,
    pub layer_start: u32,
    pub layer_len: u32,
    pub param_start: u32,
    pub param_len: u32,
}

/// The deck's rule rows, with the layers and parameters they share.
pub struct RuleTable {
    pub spec: Vec<RuleSpec>,
    pub layer: Vec<LayerId>,
    pub param_name: Vec<StrId>,
    pub param_value: Vec<ParamValue>,
}

/// A deck.
pub struct Deck {
    pub rules: RuleTable,
}

impl RuleTable {
    pub open spec fn rows(&self) -> int {
        self.spec@.len() as int
    }

    /// Row `s` names text, layers and parameters that are there.
    pub open spec fn fits(&self, strings: &StrTable, s: int) -> bool {
        let row = self.spec@[s];
        &&& strings.has(row.id)
        &&& strings.has(row.kind)
        &&& row.layer_start + row.layer_len <= self.layer@.len()
        &&& row.param_start + row.param_len <= self.param_name@.len()
    }

    /// The layers of row `s`.
    pub open spec fn layers(&self, s: int) -> Seq<LayerId> {
        let row = self.spec@[s];
        self.layer@.subrange(row.layer_start as int, row.layer_start + row.layer_len)
    }

    /// Parameter row `k` is the first of row `s` under a name.
    pub open spec fn states(&self, s: int, name: StrId, k: int) -> bool {
        let row = self.spec@[s];
        &&& row.param_start <= k < row.param_start + row.param_len
        &&& self.param_name@[k] == name
        &&& forall|j: int| row.param_start <= j < k ==> #[trigger] self.param_name@[j] != name
    }

    /// The value row `s` states under a name.
    pub open spec fn value(&self, s: int, name: StrId) -> Option<ParamValue> {
        if exists|k: int| self.states(s, name, k) {
            Some(self.param_value@[choose|k: int| self.states(s, name, k)])
        } else {
            None
        }
    }

    /// How many layers the first `n` rows list.
    pub open spec fn layers_to(&self, n: nat) -> nat
        decreases n,
    {
        if n == 0 {
            0
        } else {
            self.layers_to((n - 1) as nat) + self.spec@[n - 1].layer_len as nat
        }
    }
}

impl Deck {
    pub open spec fn wf(&self, strings: &StrTable) -> bool {
        &&& strings.text@.len() <= 0xFFFF_FFFF
        &&& self.rules.rows() <= 0xFFFF_FFFF
        &&& self.rules.param_value@.len() == self.rules.param_name@.len()
        &&& forall|s: int|
            0 <= s < self.rules.rows() ==> #[trigger] self.rules.fits(strings, s)
        &&& self.rules.layers_to(self.rules.spec@.len()) <= 0xFFFF_FFFF
    }
}

/// The first of two faults.
pub open spec fn or(a: Option<Fault>, b: Option<Fault>) -> Option<Fault> {
    if a is Some { a } else { b }
}

/// Whether reading gives a fault exactly where there is one.
pub open spec fn reads<T>(r: Result<T, ErcError>, name: Seq<char>, fault: Option<Fault>) -> bool {
    match r {
        Ok(_) => fault is None,
        Err(e) => fault is Some && e.reports(name, fault->0),
    }
}

/// One deck row, and the lookups reading it needs.
///
/// A parameter is spelled as the column it fills. A number has the unit its
/// column has: ohms, millivolts, milliamps or microamps, amps per metre,
/// kelvin, hours.
#[derive(Clone, Copy)]
pub struct Row<'a> {
    pub rules: &'a RuleTable,
    pub strings: &'a StrTable,
    pub at: usize,
}

impl<'a> Row<'a> {
    pub open spec fn wf(self) -> bool {
        &&& self.strings.text@.len() <= 0xFFFF_FFFF
        &&& self.rules.param_value@.len() == self.rules.param_name@.len()
        &&& self.at < self.rules.rows()
        &&& self.rules.fits(self.strings, self.at as int)
    }

    pub open spec fn spec(self) -> RuleSpec {
        self.rules.spec@[self.at as int]
    }

    /// The row's rule id, as text.
    pub open spec fn title(self) -> Seq<char> {
        self.strings.text_of(self.spec().id)
    }

    /// The row's kind, as text.
    pub open spec fn kind_text(self) -> Seq<char> {
        self.strings.text_of(self.spec().kind)
    }

    pub open spec fn listed(self) -> Seq<LayerId> {
        self.rules.layers(self.at as int)
    }

    /// What the row states under a parameter name.
    pub open spec fn stated(self, param: Seq<char>) -> Option<ParamValue> {
        match self.strings.id_of(param) {
            Some(id) => self.rules.value(self.at as int, id),
            None => None,
        }
    }

    pub open spec fn exact_layers(self, expected: u32) -> Option<Fault> {
        let found = self.spec().layer_len;
        if found == expected { None } else { Some(Fault::Layers(expected, found)) }
    }

    pub open spec fn least_layers(self, least: u32) -> Option<Fault> {
        let found = self.spec().layer_len;
        if found >= least { None } else { Some(Fault::Layers(least, found)) }
    }

    /// A strictly positive distance.
    pub open spec fn length_fault(self, param: Seq<char>) -> Option<Fault> {
        match self.stated(param) {
            None => Some(Fault::Missing(param)),
            Some(ParamValue::Length(v)) => if v > 0 {
                None
            } else {
                Some(Fault::NonPositive(param))
            },
            Some(_) => Some(Fault::WrongType(param)),
        }
    }

    pub open spec fn length_of(self, param: Seq<char>) -> i64 {
        (self.stated(param)->0)->Length_0
    }

    /// A strictly positive distance the row may leave out.
    pub open spec fn opt_length_fault(self, param: Seq<char>) -> Option<Fault> {
        if self.stated(param) is None { None } else { self.length_fault(param) }
    }

    pub open spec fn opt_length_of(self, param: Seq<char>) -> Option<i64> {
        if self.stated(param) is None { None } else { Some(self.length_of(param)) }
    }

    /// A distance of either sign.
    pub open spec fn signed_fault(self, param: Seq<char>) -> Option<Fault> {
        match self.stated(param) {
            None => Some(Fault::Missing(param)),
            Some(ParamValue::Length(_)) => None,
            Some(_) => Some(Fault::WrongType(param)),
        }
    }

    /// A finite number.
    pub open spec fn number_fault(self, param: Seq<char>) -> Option<Fault> {
        match self.stated(param) {
            None => Some(Fault::Missing(param)),
            Some(ParamValue::Ratio(v)) => if v.finite() {
                None
            } else {
                Some(Fault::WrongType(param))
            },
            Some(_) => Some(Fault::WrongType(param)),
        }
    }

    pub open spec fn number_of(self, param: Seq<char>) -> Number {
        (self.stated(param)->0)->Ratio_0
    }

    /// A finite number the row may leave out.
    pub open spec fn opt_number_fault(self, param: Seq<char>) -> Option<Fault> {
        if self.stated(param) is None { None } else { self.number_fault(param) }
    }

    pub open spec fn opt_number_of(self, param: Seq<char>, absent: Number) -> Number {
        if self.stated(param) is None { absent } else { self.number_of(param) }
    }

    /// A finite, strictly positive number.
    pub open spec fn positive_fault(self, param: Seq<char>) -> Option<Fault> {
        or(
            self.number_fault(param),
            if (Number { bits: 0 }).lt(self.number_of(param)) {
                None
            } else {
                Some(Fault::NonPositive(param))
            },
        )
    }

    /// A fraction in `0 ..= 1`.
    pub open spec fn fraction_fault(self, param: Seq<char>) -> Option<Fault> {
        or(
            self.number_fault(param),
            if (Number { bits: 0 }).le(self.number_of(param)) && self.number_of(param).le(
                Number { bits: ONE },
            ) {
                None
            } else {
                Some(Fault::NotFraction(param))
            },
        )
    }

    pub open spec fn opt_fraction_fault(self, param: Seq<char>) -> Option<Fault> {
        if self.stated(param) is None { None } else { self.fraction_fault(param) }
    }

    pub open spec fn opt_fraction_of(self, param: Seq<char>) -> Option<Number> {
        if self.stated(param) is None { None } else { Some(self.number_of(param)) }
    }

    pub open spec fn count_fault(self, param: Seq<char>) -> Option<Fault> {
        match self.stated(param) {
            None => Some(Fault::Missing(param)),
            Some(ParamValue::Count(_)) => None,
            Some(_) => Some(Fault::WrongType(param)),
        }
    }

    pub open spec fn count_of(self, param: Seq<char>) -> u32 {
        (self.stated(param)->0)->Count_0
    }

    pub open spec fn opt_layer_fault(self, param: Seq<char>) -> Option<Fault> {
        match self.stated(param) {
            None => None,
            Some(ParamValue::Layer(_)) => None,
            Some(_) => Some(Fault::WrongType(param)),
        }
    }

    pub open spec fn opt_layer_of(self, param: Seq<char>) -> Option<LayerId> {
        match self.stated(param) {
            Some(ParamValue::Layer(v)) => Some(v),
            _ => None,
        }
    }

    pub open spec fn flag_fault(self, param: Seq<char>) -> Option<Fault> {
        match self.stated(param) {
            None => None,
            Some(ParamValue::Flag(_)) => None,
            Some(_) => Some(Fault::WrongType(param)),
        }
    }

    pub open spec fn flag_of(self, param: Seq<char>, absent: bool) -> bool {
        match self.stated(param) {
            Some(ParamValue::Flag(v)) => v,
            _ => absent,
        }
    }

    /// The severity the row asks for: an error unless it is flagged a warning.
    pub open spec fn severity_of(self) -> Severity {
        if self.flag_of("warning"@, false) { Severity::Warning } else { Severity::Error }
    }

    pub open spec fn severity_fault(self) -> Option<Fault> {
        self.flag_fault("warning"@)
    }

    /// The deck's id for this row, as text.
    pub fn name(&self) -> (r: String)
        requires
            self.wf(),
        ensures
            r@ == self.title(),
    {
        self.strings.resolve(self.rules.spec[self.at].id).to_owned()
    }

    fn missing(&self, param: &'static str) -> (e: ErcError)
        requires
            self.wf(),
        ensures
            e.reports(self.title(), Fault::Missing(param@)),
    {
        ErcError::MissingParam { rule: self.name(), param }
    }

    fn wrong_type(&self, param: &'static str) -> (e: ErcError)
        requires
            self.wf(),
        ensures
            e.reports(self.title(), Fault::WrongType(param@)),
    {
        ErcError::WrongParamType { rule: self.name(), param }
    }

    pub fn non_positive(&self, param: &'static str) -> (e: ErcError)
        requires
            self.wf(),
        ensures
            e.reports(self.title(), Fault::NonPositive(param@)),
    {
        ErcError::NonPositiveLimit { rule: self.name(), limit: param.to_owned() }
    }

    /// What the row states under a parameter name; `None` covers both a name
    /// never interned and a row that does not carry it.
    pub fn find(&self, param: &'static str) -> (r: Option<ParamValue>)
        requires
            self.wf(),
        ensures
            r == self.stated(param@),
    {
        let id = match self.strings.get(param) {
            None => {
                return None;
            },
            Some(id) => id,
        };
        let row = self.rules.spec[self.at];
        let lo: usize = row.param_start as usize;
        let names: usize = self.rules.param_name.len();
        assert(row.param_start + row.param_len <= names);
        let hi: usize = lo + row.param_len as usize;
        let mut k: usize = lo;
        while k < hi
            invariant
                self.wf(),
                self.strings.id_of(param@) == Some(id),
                row == self.spec(),
                lo == row.param_start,
                hi == row.param_start + row.param_len,
                lo <= k <= hi <= self.rules.param_name@.len(),
                forall|j: int| lo <= j < k ==> #[trigger] self.rules.param_name@[j] != id,
            decreases hi - k,
        {
            if self.rules.param_name[k] == id {
                proof {
                    assert(self.rules.states(self.at as int, id, k as int));
                    let c = choose|c: int| self.rules.states(self.at as int, id, c);
                    assert(self.rules.states(self.at as int, id, c));
                    assert(c == k);
                }
                return Some(self.rules.param_value[k]);
            }
            k = k + 1;
        }
        None
    }

    fn all_layers(&self) -> (r: Vec<LayerId>)
        requires
            self.wf(),
        ensures
            r@ == self.listed(),
            r@.len() == self.spec().layer_len,
    {
        let row = self.rules.spec[self.at];
        let lo: usize = row.layer_start as usize;
        let total: usize = self.rules.layer.len();
        assert(row.layer_start + row.layer_len <= total);
        let hi: usize = lo + row.layer_len as usize;
        let mut r: Vec<LayerId> = Vec::new();
        let mut k: usize = lo;
        while k < hi
            invariant
                lo <= k <= hi <= self.rules.layer@.len(),
                r@ == self.rules.layer@.subrange(lo as int, k as int),
            decreases hi - k,
        {
            r.push(self.rules.layer[k]);
            k = k + 1;
            assert(r@ =~= self.rules.layer@.subrange(lo as int, k as int));
        }
        r
    }

    /// Exactly `expected` layers, or the row is refused.
    pub fn layers(&self, expected: u32) -> (r: Result<Vec<LayerId>, ErcError>)
        requires
            self.wf(),
        ensures
            reads(r, self.title(), self.exact_layers(expected)),
            r is Ok ==> (r->Ok_0)@ == self.listed() && (r->Ok_0)@.len() == expected,
    {
        let found: u32 = self.rules.spec[self.at].layer_len;
        if found == expected {
            Ok(self.all_layers())
        } else {
            Err(ErcError::WrongLayerCount { rule: self.name(), expected, found })
        }
    }

    /// At least `least` layers, or the row is refused.
    pub fn layers_from(&self, least: u32) -> (r: Result<Vec<LayerId>, ErcError>)
        requires
            self.wf(),
        ensures
            reads(r, self.title(), self.least_layers(least)),
            r is Ok ==> (r->Ok_0)@ == self.listed() && (r->Ok_0)@.len() >= least && (
            r->Ok_0)@.len() == self.spec().layer_len,
    {
        let found: u32 = self.rules.spec[self.at].layer_len;
        if found >= least {
            Ok(self.all_layers())
        } else {
            Err(ErcError::WrongLayerCount { rule: self.name(), expected: least, found })
        }
    }

    /// A distance, strictly positive.
    pub fn length(&self, param: &'static str) -> (r: Result<i64, ErcError>)
        requires
            self.wf(),
        ensures
            reads(r, self.title(), self.length_fault(param@)),
            r is Ok ==> r->Ok_0 == self.length_of(param@) && r->Ok_0 > 0,
    {
        match self.find(param) {
            None => Err(self.missing(param)),
            Some(ParamValue::Length(v)) => if v > 0 {
                Ok(v)
            } else {
                Err(self.non_positive(param))
            },
            Some(_) => Err(self.wrong_type(param)),
        }
    }

    pub fn opt_length(&self, param: &'static str) -> (r: Result<Option<i64>, ErcError>)
        requires
            self.wf(),
        ensures
            reads(r, self.title(), self.opt_length_fault(param@)),
            r is Ok ==> r->Ok_0 == self.opt_length_of(param@),
    {
        if self.find(param).is_none() {
            return Ok(None);
        }
        match self.length(param) {
            Ok(v) => Ok(Some(v)),
            Err(e) => Err(e),
        }
    }

    /// A distance that may be either sign.
    pub fn signed_length(&self, param: &'static str) -> (r: Result<i64, ErcError>)
        requires
            self.wf(),
        ensures
            reads(r, self.title(), self.signed_fault(param@)),
            r is Ok ==> r->Ok_0 == self.length_of(param@),
    {
        match self.find(param) {
            None => Err(self.missing(param)),
            Some(ParamValue::Length(v)) => Ok(v),
            Some(_) => Err(self.wrong_type(param)),
        }
    }

    /// A finite number: an infinite limit would pass every measurement.
    pub fn number(&self, param: &'static str) -> (r: Result<Number, ErcError>)
        requires
            self.wf(),
        ensures
            reads(r, self.title(), self.number_fault(param@)),
            r is Ok ==> r->Ok_0 == self.number_of(param@) && (r->Ok_0).finite(),
    {
        match self.find(param) {
            None => Err(self.missing(param)),
            Some(ParamValue::Ratio(v)) => if v.is_finite() {
                Ok(v)
            } else {
                Err(self.wrong_type(param))
            },
            Some(_) => Err(self.wrong_type(param)),
        }
    }

    pub fn opt_number(&self, param: &'static str, absent: Number) -> (r: Result<Number, ErcError>)
        requires
            self.wf(),
        ensures
            reads(r, self.title(), self.opt_number_fault(param@)),
            r is Ok ==> r->Ok_0 == self.opt_number_of(param@, absent),
    {
        if self.find(param).is_none() {
            return Ok(absent);
        }
        self.number(param)
    }

    /// A finite, strictly positive number.
    pub fn positive(&self, param: &'static str) -> (r: Result<Number, ErcError>)
        requires
            self.wf(),
        ensures
            reads(r, self.title(), self.positive_fault(param@)),
            r is Ok ==> r->Ok_0 == self.number_of(param@),
    {
        match self.number(param) {
            Err(e) => Err(e),
            Ok(v) => {
                let zero = Number { bits: 0 };
                if zero.less(v) {
                    Ok(v)
                } else {
                    Err(self.non_positive(param))
                }
            },
        }
    }

    /// A fraction in `0 ..= 1`.
    pub fn fraction(&self, param: &'static str) -> (r: Result<Number, ErcError>)
        requires
            self.wf(),
        ensures
            reads(r, self.title(), self.fraction_fault(param@)),
            r is Ok ==> r->Ok_0 == self.number_of(param@),
    {
        match self.number(param) {
            Err(e) => Err(e),
            Ok(v) => {
                let zero = Number { bits: 0 };
                if zero.at_most(v) && v.at_most(Number { bits: ONE }) {
                    Ok(v)
                } else {
                    Err(ErcError::NotAFraction { rule: self.name(), param })
                }
            },
        }
    }

    pub fn opt_fraction(&self, param: &'static str) -> (r: Result<Option<Number>, ErcError>)
        requires
            self.wf(),
        ensures
            reads(r, self.title(), self.opt_fraction_fault(param@)),
            r is Ok ==> r->Ok_0 == self.opt_fraction_of(param@),
    {
        if self.find(param).is_none() {
            return Ok(None);
        }
        match self.fraction(param) {
            Ok(v) => Ok(Some(v)),
            Err(e) => Err(e),
        }
    }

    pub fn count(&self, param: &'static str) -> (r: Result<u32, ErcError>)
        requires
            self.wf(),
        ensures
            reads(r, self.title(), self.count_fault(param@)),
            r is Ok ==> r->Ok_0 == self.count_of(param@),
    {
        match self.find(param) {
            None => Err(self.missing(param)),
            Some(ParamValue::Count(v)) => Ok(v),
            Some(_) => Err(self.wrong_type(param)),
        }
    }

    pub fn opt_layer(&self, param: &'static str) -> (r: Result<Option<LayerId>, ErcError>)
        requires
            self.wf(),
        ensures
            reads(r, self.title(), self.opt_layer_fault(param@)),
            r is Ok ==> r->Ok_0 == self.opt_layer_of(param@),
    {
        match self.find(param) {
            None => Ok(None),
            Some(ParamValue::Layer(v)) => Ok(Some(v)),
            Some(_) => Err(self.wrong_type(param)),
        }
    }

    pub fn flag(&self, param: &'static str, absent: bool) -> (r: Result<bool, ErcError>)
        requires
            self.wf(),
        ensures
            reads(r, self.title(), self.flag_fault(param@)),
            r is Ok ==> r->Ok_0 == self.flag_of(param@, absent),
    {
        match self.find(param) {
            None => Ok(absent),
            Some(ParamValue::Flag(v)) => Ok(v),
            Some(_) => Err(self.wrong_type(param)),
        }
    }

    /// The severity the row asks for.
    pub fn severity(&self) -> (r: Result<Severity, ErcError>)
        requires
            self.wf(),
        ensures
            reads(r, self.title(), self.severity_fault()),
            r is Ok ==> r->Ok_0 == self.severity_of(),
    {
        match self.flag("warning", false) {
            Ok(v) => Ok(if v { Severity::Warning } else { Severity::Error }),
            Err(e) => Err(e),
        }
    }
}

} // verus!
