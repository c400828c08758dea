use rix::tir::typ::{AtomType, FunType, Type, Typs};

#[test]
fn basic_typ_ids() {
    let mut typs = Typs::new();

    // make sure that error() and insert(Type::Error) return the same id
    assert_eq!(typs.error(), typs.insert(Type::Error));

    // make sure that atom(...) and insert(Type::Atom(...)) return the same id
    for atom in AtomType::all() {
        assert_eq!(typs.atom(atom), typs.insert(Type::Atom(atom)));
    }
}

#[test]
fn atoms_follow_the_error_type() {
    let typs = Typs::new();
    assert_eq!(typs.error().get(), 0);
    assert_eq!(typs.atom(AtomType::Void).get(), 1);
    assert_eq!(typs.atom(AtomType::Bool).get(), 2);
    assert_eq!(typs.atom(AtomType::IPtr).get(), 12);
}

#[test]
fn pointers_are_stored_once() {
    let mut typs = Typs::new();
    let u8_id = typs.atom(AtomType::U8);
    let p1 = typs.ptr(u8_id);
    let p2 = typs.ptr(u8_id);
    assert_eq!(p1, p2);
    assert_eq!(p1.get(), 13);
    let pp = typs.ptr(p1);
    assert_eq!(pp.get(), 14);
    assert_eq!(typs.insert(Type::Ptr(u8_id)), p1);
}

#[test]
fn function_types_are_stored_once() {
    let mut typs = Typs::new();
    let i32_id = typs.atom(AtomType::I32);
    let void_id = typs.atom(AtomType::Void);
    let f = FunType { params: vec![i32_id, i32_id], ret_type: void_id, varargs: false };
    let (t1, f1) = typs.fun(f.clone());
    let (t2, f2) = typs.fun(f.clone());
    assert_eq!(t1, t2);
    assert_eq!(f1, f2);
    assert_eq!(f1.get(), 0);
    let g = FunType { params: vec![i32_id], ret_type: void_id, varargs: true };
    let (t3, f3) = typs.fun(g.clone());
    assert_ne!(t3, t1);
    assert_eq!(f3.get(), 1);
    assert_eq!(typs.try_get_fun(t1), Some(&f));
    assert_eq!(typs.try_get_fun(t3), Some(&g));
    assert_eq!(typs.try_get_fun(i32_id), None);
}

#[test]
fn only_the_error_type_is_an_error() {
    assert!(Type::Error.is_error());
    assert!(!Type::Atom(AtomType::U8).is_error());
}
