//! Rails told by their names, and a coarse grid of their polygons.
use crate::evidence::names::{begins, raised, starts_with, uppercase};
use crate::evidence::netlist::{NetNames, Technology};
use crate::number::Number;
use crate::text::same_text;
use vstd::prelude::*;

verus! {

/// The nominal voltages names stand for.
pub const CORE_VOLTS: u64 = 0x3FFC_CCCC_CCCC_CCCD;

pub const HIGH_VOLTS: u64 = 0x400A_6666_6666_6666;

pub const LOW_VOLTS: u64 = 0x3FEC_CCCC_CCCC_CCCD;

/// The nets that are rails.
pub struct PowerNetClassification {
    /// Net, name and nominal volts, ascending by net.
    pub power_nets: Vec<(u32, String, Number)>,
    /// Net and name, ascending by net.
    pub ground_nets: Vec<(u32, String)>,
}

impl Default for PowerNetClassification {
    fn default() -> (r: PowerNetClassification)
        ensures
            r.power_nets@.len() == 0,
            r.ground_nets@.len() == 0,
    {
        PowerNetClassification { power_nets: Vec::new(), ground_nets: Vec::new() }
    }
}

/// The nominal voltage an upper-case name stands for.
pub open spec fn volts_named(upper: Seq<char>) -> Option<Number> {
    if upper == "VDD"@ || upper == "VPWR"@ || upper == "VCC"@ {
        Some(Number { bits: CORE_VOLTS })
    } else if upper == "VDDH"@ {
        Some(Number { bits: HIGH_VOLTS })
    } else if upper == "VDDL"@ {
        Some(Number { bits: LOW_VOLTS })
    } else if begins(upper, "VDD"@) {
        Some(Number { bits: CORE_VOLTS })
    } else {
        None
    }
}

/// The nominal voltage an upper-case name stands for.
pub fn volts_of(upper: &str) -> (r: Option<Number>)
    ensures
        r == volts_named(upper@),
{
    if same_text(upper, "VDD") || same_text(upper, "VPWR") || same_text(upper, "VCC") {
        Some(Number { bits: CORE_VOLTS })
    } else if same_text(upper, "VDDH") {
        Some(Number { bits: HIGH_VOLTS })
    } else if same_text(upper, "VDDL") {
        Some(Number { bits: LOW_VOLTS })
    } else if starts_with(upper, "VDD") {
        Some(Number { bits: CORE_VOLTS })
    } else {
        None
    }
}

/// The nominal voltage a rail name stands for, in either case.
pub fn guess_voltage(name: &str) -> (r: Option<Number>)
    ensures
        r == volts_named(raised(name@)),
{
    let upper = uppercase(name);
    volts_of(upper.as_str())
}

/// Whether an upper-case name is that of a ground.
pub open spec fn ground_named(upper: Seq<char>) -> bool {
    upper == "VSS"@ || upper == "GND"@ || upper == "VGND"@ || upper == "GROUND"@ || upper == "DGND"@
        || upper == "AGND"@ || begins(upper, "VSS"@)
}

/// Whether an upper-case name is that of a ground.
pub fn is_ground(upper: &str) -> (r: bool)
    ensures
        r == ground_named(upper@),
{
    same_text(upper, "VSS") || same_text(upper, "GND") || same_text(upper, "VGND") || same_text(
        upper,
        "GROUND",
    ) || same_text(upper, "DGND") || same_text(upper, "AGND") || starts_with(upper, "VSS")
}

/// Whether a name is that of a ground, in either case.
pub fn is_ground_name(name: &str) -> (r: bool)
    ensures
        r == ground_named(raised(name@)),
{
    let upper = uppercase(name);
    is_ground(upper.as_str())
}

/// What a named net is.
pub ghost enum Rail {
    Power(Number),
    Ground,
    Signal,
}

/// Whether a name is one of a list.
pub open spec fn listed(names: Seq<String>, name: Seq<char>) -> bool {
    exists|i: int| 0 <= i < names.len() && (#[trigger] names[i])@ == name
}

/// What a net of a name is: a ground or a rail by its name, and a ground where
/// its name is global and says neither, which is the safe reading.
pub open spec fn rail_named(globals: Seq<String>, name: Seq<char>) -> Rail {
    if ground_named(raised(name)) {
        Rail::Ground
    } else {
        match volts_named(raised(name)) {
            Some(v) => Rail::Power(v),
            None => if listed(globals, name) { Rail::Ground } else { Rail::Signal },
        }
    }
}

/// The rails of the first `n` named nets.
pub open spec fn power_to(names: &NetNames, globals: Seq<String>, n: nat) -> Seq<
    (u32, Seq<char>, Number),
>
    decreases n,
{
    if n == 0 {
        Seq::empty()
    } else {
        let before = power_to(names, globals, (n - 1) as nat);
        match rail_named(globals, names.name@[n - 1]@) {
            Rail::Power(v) => before.push((names.net@[n - 1], names.name@[n - 1]@, v)),
            _ => before,
        }
    }
}

/// The grounds of the first `n` named nets.
pub open spec fn ground_to(names: &NetNames, globals: Seq<String>, n: nat) -> Seq<(u32, Seq<char>)>
    decreases n,
{
    if n == 0 {
        Seq::empty()
    } else {
        let before = ground_to(names, globals, (n - 1) as nat);
        match rail_named(globals, names.name@[n - 1]@) {
            Rail::Ground => before.push((names.net@[n - 1], names.name@[n - 1]@)),
            _ => before,
        }
    }
}

impl PowerNetClassification {
    /// The rails, with names as texts.
    pub open spec fn power(&self) -> Seq<(u32, Seq<char>, Number)> {
        Seq::new(
            self.power_nets@.len(),
            |i: int| (self.power_nets@[i].0, self.power_nets@[i].1@, self.power_nets@[i].2),
        )
    }

    /// The grounds, with names as texts.
    pub open spec fn ground(&self) -> Seq<(u32, Seq<char>)> {
        Seq::new(
            self.ground_nets@.len(),
            |i: int| (self.ground_nets@[i].0, self.ground_nets@[i].1@),
        )
    }
}

fn is_listed(names: &Vec<String>, name: &str) -> (r: bool)
    ensures
        r == listed(names@, name@),
{
    let mut i: usize = 0;
    while i < names.len()
        invariant
            i <= names@.len(),
            forall|k: int| 0 <= k < i ==> (#[trigger] names@[k])@ != name@,
        decreases names@.len() - i,
    {
        if same_text(names[i].as_str(), name) {
            assert(names@[i as int]@ == name@);
            return true;
        }
        i = i + 1;
    }
    false
}

/// Tell power and ground nets by their names, or by the technology's global
/// names.
pub fn identify_power_nets(tech: &Technology, names: &NetNames) -> (r: PowerNetClassification)
    requires
        names.wf(),
    ensures
        r.power() == power_to(names, tech.global_nets@, names.net@.len()),
        r.ground() == ground_to(names, tech.global_nets@, names.net@.len()),
{
    let mut r = PowerNetClassification::default();
    let ghost globals = tech.global_nets@;
    let mut n: usize = 0;
    assert(r.power() =~= power_to(names, globals, 0));
    assert(r.ground() =~= ground_to(names, globals, 0));
    while n < names.net.len()
        invariant
            n <= names.net@.len(),
            names.wf(),
            globals == tech.global_nets@,
            r.power() == power_to(names, globals, n as nat),
            r.ground() == ground_to(names, globals, n as nat),
        decreases names.net@.len() - n,
    {
        let net: u32 = names.net[n];
        let name = names.name[n].clone();
        let ghost power = r.power();
        let ghost ground = r.ground();
        if is_ground_name(name.as_str()) {
            r.ground_nets.push((net, name));
            assert(r.ground() =~= ground.push((net, names.name@[n as int]@)));
            assert(r.power() =~= power);
        } else {
            match guess_voltage(name.as_str()) {
                Some(v) => {
                    r.power_nets.push((net, name, v));
                    assert(r.power() =~= power.push((net, names.name@[n as int]@, v)));
                    assert(r.ground() =~= ground);
                },
                None => {
                    if is_listed(&tech.global_nets, name.as_str()) {
                        r.ground_nets.push((net, name));
                        assert(r.ground() =~= ground.push((net, names.name@[n as int]@)));
                        assert(r.power() =~= power);
                    }
                },
            }
        }
        n = n + 1;
    }
    r
}

} // verus!
