use vstd::prelude::*;

verus! {

/// Number of fixed-point units in one whole unit of a dimensionless factor:
/// a mimic multiplier of `1_500_000` stands for 1.5.
pub const MULTIPLIER_ONE: i64 = 1_000_000;

/// An inclusive range `[min, max]` of joint positions.
#[derive(Clone, Copy, Debug, PartialEq, Eq, Structural)]
pub struct Range {
    pub min: i64,
    pub max: i64,
}

impl Range {
    pub open spec fn contains_spec(&self, p: int) -> bool {
        self.min <= p && p <= self.max
    }

    pub fn new(min: i64, max: i64) -> (r: Range)
        ensures
            r.min == min,
            r.max == max,
    {
        Range { min, max }
    }

    /// Whether `p` lies in the range, bounds included.
    pub fn contains(&self, p: i64) -> (r: bool)
        ensures
            r == self.contains_spec(p as int),
    {
        self.min <= p && p <= self.max
    }
}

/// A direction in space, given by its three components.
#[derive(Clone, Copy, Debug, PartialEq, Eq, Structural)]
pub struct Axis {
    pub x: i64,
    pub y: i64,
    pub z: i64,
}

/// The kind of motion a joint allows.
#[derive(Clone, Copy, Debug, PartialEq, Eq, Structural)]
pub enum JointType {
    /// No degree of freedom.
    Fixed,
    /// Rotation about `axis`; the position is an angle.
    Rotational { axis: Axis },
    /// Translation along `axis`; the position is a displacement.
    Linear { axis: Axis },
}

impl JointType {
    pub open spec fn is_fixed(&self) -> bool {
        self is Fixed
    }
}

/// What can go wrong when positions are assigned.
#[derive(Clone, Debug, PartialEq, Eq)]
pub enum JointError {
    /// The position lies outside the joint's limits, or outside what a
    /// position can hold.
    OutOfLimits { name: String },
    /// The joint is fixed and has no position.
    NotMovable { name: String },
    /// A bulk assignment got a number of values other than the number of
    /// movable joints.
    LengthMismatch { expected: usize, actual: usize },
}

/// Makes a dependent joint follow a driving joint:
/// `dependent = driver * multiplier / MULTIPLIER_ONE + offset`, rounded down.
#[derive(Clone, Copy, Debug, PartialEq, Eq, Structural)]
pub struct Mimic {
    pub multiplier: i64,
    pub offset: i64,
}

/// The position a mimicking joint takes when its driver stands at `p`.
pub open spec fn mimic_position_spec(m: Mimic, p: int) -> int {
    (p * m.multiplier) / (MULTIPLIER_ONE as int) + m.offset
}

/// Whether a position value can be stored.
pub open spec fn fits_position(v: int) -> bool {
    i64::MIN <= v && v <= i64::MAX
}

impl Mimic {
    pub fn new(multiplier: i64, offset: i64) -> (r: Mimic)
        ensures
            r.multiplier == multiplier,
            r.offset == offset,
    {
        Mimic { multiplier, offset }
    }

    /// The dependent position for driver position `p`, or `None` where it
    /// does not fit a position.
    pub fn mimic_position(&self, p: i64) -> (r: Option<i64>)
        ensures
            r is Some <==> fits_position(mimic_position_spec(*self, p as int)),
            r is Some ==> r->0 == mimic_position_spec(*self, p as int),
    {
        let pw: i128 = p as i128;
        let mw: i128 = self.multiplier as i128;
        assert(-0x4000_0000_0000_0000_0000_0000_0000_0000 <= pw * mw <= 0x4000_0000_0000_0000_0000_0000_0000_0000)
            by (nonlinear_arith)
            requires
                -0x8000_0000_0000_0000 <= pw <= 0x7fff_ffff_ffff_ffff,
                -0x8000_0000_0000_0000 <= mw <= 0x7fff_ffff_ffff_ffff,
        ;
        let prod: i128 = pw * mw;
        let one: i128 = MULTIPLIER_ONE as i128;
        let q: i128 = if prod >= 0 {
            prod / one
        } else {
            let n: i128 = -prod;
            let up: i128 = (n + one - 1) / one;
            proof {
                lemma_neg_floor_div(prod as int, one as int);
            }
            -up
        };
        assert(q == (p as int * self.multiplier as int) / (MULTIPLIER_ONE as int)) by (nonlinear_arith)
            requires
                q == prod as int / one as int || prod < 0,
                prod < 0 ==> q == prod as int / one as int,
                prod == p as int * self.multiplier as int,
                one == MULTIPLIER_ONE as int,
        ;
        let v: i128 = q + self.offset as i128;
        if v >= i64::MIN as i128 && v <= i64::MAX as i128 {
            Some(v as i64)
        } else {
            None
        }
    }
}

proof fn lemma_neg_floor_div(a: int, d: int)
    requires
        a < 0,
        d > 0,
    ensures
        -((-a + d - 1) / d) == a / d,
{
    let q = a / d;
    let r = a % d;
    assert(a == q * d + r && 0 <= r < d) by {
        vstd::arithmetic::div_mod::lemma_fundamental_div_mod(a, d);
    }
    assert(-a + d - 1 == (-q) * d + (d - 1 - r)) by (nonlinear_arith)
        requires
            a == q * d + r,
    ;
    vstd::arithmetic::div_mod::lemma_fundamental_div_mod_converse(-a + d - 1, d, -q, d - 1 - r);
}

/// What a joint is, as contracts see it.
pub struct JointModel {
    pub name: Seq<char>,
    pub joint_type: JointType,
    pub limits: Option<Range>,
    /// The stored position; meaningful only for a joint that is not fixed.
    pub position: int,
}

impl JointModel {
    /// The position as the joint reports it: none for a fixed joint.
    pub open spec fn position_spec(&self) -> Option<int> {
        if self.joint_type.is_fixed() {
            None
        } else {
            Some(self.position)
        }
    }

    /// Whether `p` may be assigned to the joint.
    pub open spec fn accepts(&self, p: int) -> bool {
        !self.joint_type.is_fixed() && match self.limits {
            Some(l) => l.contains_spec(p),
            None => true,
        }
    }

    /// The joint after `p` is assigned to it.
    pub open spec fn with_position(self, p: int) -> JointModel {
        JointModel { position: p, ..self }
    }
}

/// One joint: its name, kind, limits and current position.
#[derive(Clone, Debug)]
pub struct Joint {
    name: String,
    joint_type: JointType,
    limits: Option<Range>,
    position: i64,
}

impl View for Joint {
    type V = JointModel;

    closed spec fn view(&self) -> JointModel {
        JointModel {
            name: self.name@,
            joint_type: self.joint_type,
            limits: self.limits,
            position: self.position as int,
        }
    }
}

impl Joint {
    /// A joint at position zero.
    pub fn new(name: String, joint_type: JointType, limits: Option<Range>) -> (r: Joint)
        ensures
            r@ == (JointModel { name: name@, joint_type, limits, position: 0 }),
    {
        Joint { name, joint_type, limits, position: 0 }
    }

    pub fn name(&self) -> (r: String)
        ensures
            r@ == self@.name,
    {
        self.name.clone()
    }

    pub fn joint_type(&self) -> (r: JointType)
        ensures
            r == self@.joint_type,
    {
        self.joint_type
    }

    pub fn limits(&self) -> (r: Option<Range>)
        ensures
            r == self@.limits,
    {
        self.limits
    }

    pub fn position(&self) -> (r: Option<i64>)
        ensures
            r is Some <==> self@.position_spec() is Some,
            r is Some ==> r->0 == self@.position_spec()->0,
    {
        match self.joint_type {
            JointType::Fixed => None,
            _ => Some(self.position),
        }
    }

    /// Whether the joint has a position, i.e. is not fixed.
    pub fn has_position(&self) -> (r: bool)
        ensures
            r == !self@.joint_type.is_fixed(),
    {
        match self.joint_type {
            JointType::Fixed => false,
            _ => true,
        }
    }

    /// Assigns `p`: a fixed joint refuses with `NotMovable`, a position
    /// outside the limits with `OutOfLimits`; on failure nothing changes.
    pub fn set_position(&mut self, p: i64) -> (r: Result<(), JointError>)
        ensures
            r is Ok <==> old(self)@.accepts(p as int),
            r is Ok ==> final(self)@ == old(self)@.with_position(p as int),
            r is Err ==> final(self)@ == old(self)@,
            r is Err ==> is_refusal_of(r->Err_0, old(self)@),
    {
        if let JointType::Fixed = self.joint_type {
            return Err(JointError::NotMovable { name: self.name.clone() });
        }
        if let Some(l) = self.limits {
            if !l.contains(p) {
                return Err(JointError::OutOfLimits { name: self.name.clone() });
            }
        }
        self.position = p;
        Ok(())
    }
}

/// Whether `e` is the error a joint gives when it refuses a position:
/// `NotMovable` when it is fixed, `OutOfLimits` otherwise, naming the joint.
pub open spec fn is_refusal_of(e: JointError, j: JointModel) -> bool {
    match e {
        JointError::NotMovable { name } => j.joint_type.is_fixed() && name@ == j.name,
        JointError::OutOfLimits { name } => !j.joint_type.is_fixed() && name@ == j.name,
        _ => false,
    }
}

} // verus!
