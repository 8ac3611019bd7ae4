use kinematic_chain::chain::Chain;
use kinematic_chain::joint::{Axis, Joint, JointError, JointType, Mimic, Range};

const Z: Axis = Axis { x: 0, y: 0, z: 1 };
const Y: Axis = Axis { x: 0, y: 1, z: 0 };

fn linear(name: &str, limits: Option<Range>) -> Joint {
    Joint::new(name.to_string(), JointType::Linear { axis: Z }, limits)
}

fn fixed(name: &str) -> Joint {
    Joint::new(name.to_string(), JointType::Fixed, None)
}

#[test]
fn mimic_child_follows_driver() {
    let mut c = Chain::new();
    let j0 = c.add_joint(linear("j0", Some(Range::new(0, 2_000_000))), None);
    let j1 = c.add_joint(linear("j1", Some(Range::new(0, 2_000_000))), None);
    c.set_mimic_parent(j1, j0, Mimic::new(1_500_000, 100_000));
    assert_eq!(c.node(j0).position(), Some(0));
    assert_eq!(c.node(j1).position(), Some(0));
    assert!(c.set_position(j0, 1_000_000).is_ok());
    assert_eq!(c.node(j0).position(), Some(1_000_000));
    assert_eq!(c.node(j1).position(), Some(1_600_000));
}

#[test]
fn mimic_child_ignores_direct_assignment() {
    let mut c = Chain::new();
    let j0 = c.add_joint(linear("j0", None), None);
    let j1 = c.add_joint(linear("j1", None), Some(j0));
    c.set_mimic_parent(j1, j0, Mimic::new(2_000_000, -5));
    assert!(c.set_position(j0, 10).is_ok());
    assert_eq!(c.node(j1).position(), Some(15));
    assert!(c.set_position(j1, 999).is_ok());
    assert_eq!(c.node(j1).position(), Some(15));
    assert_eq!(c.node(j1).mimic_parent(), Some(j0));
}

#[test]
fn out_of_limits_keeps_position() {
    let mut c = Chain::new();
    let j = c.add_joint(linear("slider", Some(Range::new(0, 2_000_000))), None);
    assert!(c.set_position(j, 1_000_000).is_ok());
    let r = c.set_position(j, -1_000_000);
    assert_eq!(r, Err(JointError::OutOfLimits { name: "slider".to_string() }));
    assert_eq!(c.node(j).position(), Some(1_000_000));
}

#[test]
fn limits_are_inclusive() {
    let mut c = Chain::new();
    let j = c.add_joint(linear("j", Some(Range::new(-3, 7))), None);
    assert!(c.set_position(j, -3).is_ok());
    assert!(c.set_position(j, 7).is_ok());
    assert!(c.set_position(j, 8).is_err());
    assert!(c.set_position(j, -4).is_err());
    assert_eq!(c.node(j).position(), Some(7));
}

#[test]
fn no_limits_accepts_everything() {
    let mut c = Chain::new();
    let j = c.add_joint(linear("free", None), None);
    assert!(c.set_position(j, i64::MIN).is_ok());
    assert_eq!(c.node(j).position(), Some(i64::MIN));
    assert!(c.set_position(j, i64::MAX).is_ok());
    assert_eq!(c.node(j).position(), Some(i64::MAX));
}

#[test]
fn fixed_joint_is_not_movable() {
    let mut c = Chain::new();
    let j = c.add_joint(fixed("base"), None);
    assert_eq!(c.set_position(j, 0), Err(JointError::NotMovable { name: "base".to_string() }));
    assert_eq!(c.node(j).position(), None);
    assert!(!c.node(j).has_position());
}

#[test]
fn joint_level_assignment() {
    let mut j = linear("j", Some(Range::new(0, 10)));
    assert_eq!(j.set_position(11), Err(JointError::OutOfLimits { name: "j".to_string() }));
    assert_eq!(j.position(), Some(0));
    assert_eq!(j.set_position(4), Ok(()));
    assert_eq!(j.position(), Some(4));
    let mut f = fixed("f");
    assert_eq!(f.set_position(0), Err(JointError::NotMovable { name: "f".to_string() }));
}

#[test]
fn short_vector_is_length_mismatch() {
    let mut c = Chain::new();
    let a = c.add_joint(linear("a", None), None);
    let b = c.add_joint(fixed("b"), Some(a));
    let _d = c.add_joint(linear("d", None), Some(b));
    assert_eq!(c.dof(), 2);
    let r = c.set_joint_positions(&vec![5]);
    assert_eq!(r, Err(JointError::LengthMismatch { expected: 2, actual: 1 }));
    assert_eq!(c.joint_positions(), vec![0, 0]);
}

#[test]
fn bulk_assignment_skips_fixed_joints() {
    let mut c = Chain::new();
    let a = c.add_joint(linear("a", None), None);
    let b = c.add_joint(fixed("b"), Some(a));
    let d = c.add_joint(linear("d", None), Some(b));
    assert!(c.set_joint_positions(&vec![5, -7]).is_ok());
    assert_eq!(c.node(a).position(), Some(5));
    assert_eq!(c.node(d).position(), Some(-7));
    assert_eq!(c.joint_positions(), vec![5, -7]);
}

#[test]
fn bulk_assignment_stops_at_first_refusal() {
    let mut c = Chain::new();
    let a = c.add_joint(linear("a", None), None);
    let b = c.add_joint(linear("b", Some(Range::new(0, 1))), Some(a));
    let d = c.add_joint(linear("d", None), Some(b));
    let r = c.set_joint_positions(&vec![3, 4, 5]);
    assert_eq!(r, Err(JointError::OutOfLimits { name: "b".to_string() }));
    assert_eq!(c.node(a).position(), Some(3));
    assert_eq!(c.node(b).position(), Some(0));
    assert_eq!(c.node(d).position(), Some(0));
}

#[test]
fn traversal_is_depth_first() {
    let mut c = Chain::new();
    let r = c.add_joint(linear("r", None), None);
    let a = c.add_joint(linear("a", None), Some(r));
    let b = c.add_joint(linear("b", None), Some(r));
    let a1 = c.add_joint(linear("a1", None), Some(a));
    let s = c.add_joint(fixed("s"), None);
    assert_eq!(c.len(), 5);
    assert_eq!(c.traversal_order(), vec![r, a, a1, b, s]);
    assert_eq!(c.parent_slots(), vec![None, Some(0), Some(1), Some(0), None]);
    assert_eq!(c.node(a1).parent(), Some(a));
    // positions follow the same order
    assert!(c.set_joint_positions(&vec![1, 2, 3, 4]).is_ok());
    assert_eq!(c.node(a1).position(), Some(3));
    assert_eq!(c.node(b).position(), Some(4));
    assert_eq!(c.joint_positions(), vec![1, 2, 3, 4]);
}

#[test]
fn mimic_rebind_drops_old_entry() {
    let mut c = Chain::new();
    let p0 = c.add_joint(linear("p0", None), None);
    let p1 = c.add_joint(linear("p1", None), None);
    let ch = c.add_joint(linear("ch", None), None);
    c.set_mimic_parent(ch, p0, Mimic::new(1_000_000, 0));
    c.set_mimic_parent(ch, p1, Mimic::new(1_000_000, 1));
    assert!(c.set_position(p0, 50).is_ok());
    assert_eq!(c.node(ch).position(), Some(0));
    assert!(c.set_position(p1, 50).is_ok());
    assert_eq!(c.node(ch).position(), Some(51));
}

#[test]
fn mimic_cascade_is_not_rolled_back() {
    let mut c = Chain::new();
    let d = c.add_joint(linear("drv", None), None);
    let f1 = c.add_joint(linear("f1", None), None);
    let f2 = c.add_joint(linear("f2", Some(Range::new(0, 10))), None);
    c.set_mimic_parent(f1, d, Mimic::new(1_000_000, 0));
    c.set_mimic_parent(f2, d, Mimic::new(1_000_000, 0));
    let r = c.set_position(d, 20);
    assert_eq!(r, Err(JointError::OutOfLimits { name: "f2".to_string() }));
    assert_eq!(c.node(d).position(), Some(20));
    assert_eq!(c.node(f1).position(), Some(20));
    assert_eq!(c.node(f2).position(), Some(0));
}

#[test]
fn mimic_onto_fixed_joint_is_not_movable() {
    let mut c = Chain::new();
    let d = c.add_joint(linear("drv", None), None);
    let f = c.add_joint(fixed("f"), None);
    c.set_mimic_parent(f, d, Mimic::new(1_000_000, 0));
    assert_eq!(c.set_position(d, 1), Err(JointError::NotMovable { name: "f".to_string() }));
    assert_eq!(c.node(d).position(), Some(1));
}

#[test]
fn mimic_position_rounds_down() {
    let m = Mimic::new(1_500_000, 100_000);
    assert_eq!(m.mimic_position(1_000_000), Some(1_600_000));
    assert_eq!(Mimic::new(1_500_000, 0).mimic_position(1), Some(1));
    assert_eq!(Mimic::new(1_500_000, 0).mimic_position(-1), Some(-2));
    assert_eq!(Mimic::new(-1_000_000, 0).mimic_position(3), Some(-3));
    assert_eq!(Mimic::new(2_000_000, 0).mimic_position(i64::MAX), None);
    assert_eq!(Mimic::new(1_000_000, 0).mimic_position(i64::MIN), Some(i64::MIN));
}

#[test]
fn unrepresentable_mimic_position_is_out_of_limits() {
    let mut c = Chain::new();
    let d = c.add_joint(linear("drv", None), None);
    let f = c.add_joint(linear("f", None), None);
    c.set_mimic_parent(f, d, Mimic::new(3_000_000, 0));
    assert_eq!(c.set_position(d, i64::MAX), Err(JointError::OutOfLimits { name: "f".to_string() }));
    assert_eq!(c.node(f).position(), Some(0));
}

#[test]
fn node_accessors() {
    let mut c = Chain::new();
    let j = c.add_joint(
        Joint::new("elbow".to_string(), JointType::Rotational { axis: Y }, Some(Range::new(-5, 5))),
        None,
    );
    let n = c.node(j);
    assert_eq!(n.name(), "elbow".to_string());
    assert_eq!(n.limits(), Some(Range::new(-5, 5)));
    assert_eq!(n.joint_type(), JointType::Rotational { axis: Y });
    assert!(n.has_position());
    assert_eq!(n.parent(), None);
    assert_eq!(n.mimic_parent(), None);
    assert!(Range::new(-5, 5).contains(5));
    assert!(!Range::new(-5, 5).contains(6));
}
