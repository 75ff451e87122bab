use interb::Interner;
use lykiadb::environment::{EnvironmentError, EnvironmentFrame};

#[test]
fn test_read_basic() {
    let interner: Interner = Interner::with_capacity(16);
    let mut env_man = EnvironmentFrame::new(None);
    env_man.define(interner.intern("five"), 5.0f64);
    assert_eq!(env_man.read("five", &interner.intern("five")).unwrap(), 5.0);
}

#[test]
fn test_read_from_parent() {
    let interner: Interner = Interner::with_capacity(16);
    let mut root = EnvironmentFrame::new(None);
    root.define(interner.intern("five"), 5.0f64);
    let child = EnvironmentFrame::new(Some(Box::new(root)));
    assert_eq!(child.read("five", &interner.intern("five")).unwrap(), 5.0);
}

#[test]
fn test_write_to_parent() {
    let interner: Interner = Interner::with_capacity(16);
    let mut root = EnvironmentFrame::new(None);
    root.define(interner.intern("five"), 5.0f64);
    let mut child = EnvironmentFrame::new(Some(Box::new(root)));
    child.assign("five", interner.intern("five"), 5.1).unwrap();
    let root = child.parent.as_ref().unwrap();
    assert_eq!(root.read("five", &interner.intern("five")).unwrap(), 5.1);
    assert_eq!(child.read("five", &interner.intern("five")).unwrap(), 5.1);
}

#[test]
fn test_read_undefined_variable() {
    let interner: Interner = Interner::with_capacity(16);
    let env: EnvironmentFrame<f64> = EnvironmentFrame::new(None);
    assert!(env.read("five", &interner.intern("five")).is_err());
}

#[test]
fn test_assign_to_undefined_variable() {
    let interner: Interner = Interner::with_capacity(16);
    let mut env = EnvironmentFrame::new(None);
    assert!(env.assign("five", interner.intern("five"), 5.0f64).is_err());
}

#[test]
fn environment_error_messages() {
    let interner: Interner = Interner::with_capacity(16);
    let mut env: EnvironmentFrame<f64> = EnvironmentFrame::new(None);
    assert_eq!(
        env.read("x", &interner.intern("x")),
        Err(EnvironmentError::Other { message: "Variable 'x' was not found".to_string() })
    );
    assert_eq!(
        env.assign("x", interner.intern("x"), 1.0),
        Err(EnvironmentError::Other {
            message: "Assignment to an undefined variable 'x'".to_string()
        })
    );
}

#[test]
fn define_shadows_outer_and_redefines() {
    let interner: Interner = Interner::with_capacity(16);
    let a = interner.intern("a");
    let mut root = EnvironmentFrame::new(None);
    root.define(a, 1i64);
    root.define(a, 2i64);
    assert_eq!(root.read("a", &a), Ok(2));
    let mut child = EnvironmentFrame::new(Some(Box::new(root)));
    child.define(a, 3);
    assert_eq!(child.read("a", &a), Ok(3));
    assert_eq!(child.parent.as_ref().unwrap().read("a", &a), Ok(2));
    // An assignment reaches the innermost frame that holds the name.
    assert_eq!(child.assign("a", a, 4), Ok(true));
    assert_eq!(child.read("a", &a), Ok(4));
    assert_eq!(child.parent.as_ref().unwrap().read("a", &a), Ok(2));
}

#[test]
fn read_and_assign_at_distance() {
    let interner: Interner = Interner::with_capacity(16);
    let a = interner.intern("a");
    let b = interner.intern("b");
    let mut global = EnvironmentFrame::new(None);
    global.define(a, 10i64);
    global.define(b, 20i64);
    let mut middle = EnvironmentFrame::new(Some(Box::new(global)));
    middle.define(a, 11);
    let mut inner = EnvironmentFrame::new(Some(Box::new(middle)));
    // Distance zero and one look outwards from that frame.
    assert_eq!(EnvironmentFrame::read_at(&inner, 0, "a", &a), Ok(11));
    assert_eq!(EnvironmentFrame::read_at(&inner, 1, "b", &b), Ok(20));
    // A larger distance reads that frame alone.
    assert_eq!(EnvironmentFrame::read_at(&inner, 2, "a", &a), Ok(10));
    assert!(EnvironmentFrame::read_at(&inner, 2, "c", &interner.intern("c")).is_err());
    // Assigning at a distance searches outwards from that frame.
    assert_eq!(EnvironmentFrame::assign_at(&mut inner, 2, "a", a, 12), Ok(true));
    assert_eq!(EnvironmentFrame::read_at(&inner, 2, "a", &a), Ok(12));
    assert_eq!(EnvironmentFrame::read_at(&inner, 0, "a", &a), Ok(11));
    assert_eq!(EnvironmentFrame::assign_at(&mut inner, 0, "b", b, 21), Ok(true));
    assert_eq!(EnvironmentFrame::read_at(&inner, 2, "b", &b), Ok(21));
    assert!(EnvironmentFrame::assign_at(&mut inner, 1, "c", interner.intern("c"), 1).is_err());
}
