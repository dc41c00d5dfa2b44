use weaver::component::{check_arguments, check_return, Data, MethodArgType, MethodCallError};
use weaver::registry::Registry;

#[test]
fn method_arg_types() {
    let m = MethodArgType::Mut(3);
    let r = MethodArgType::Ref(4);
    let o = MethodArgType::Owned(5);
    assert_eq!(m.type_id(), 3);
    assert_eq!(r.type_id(), 4);
    assert_eq!(o.type_id(), 5);
    assert!(m.is_mut() && !m.is_ref() && !m.is_owned());
    assert!(r.is_ref() && !r.is_mut() && !r.is_owned());
    assert!(o.is_owned() && !o.is_mut() && !o.is_ref());
}

#[test]
fn dynamic_data_gets_its_type_id_from_the_registry() {
    let mut registry = Registry::new();
    let x = Data::new_dynamic("f32", Some("x"), true, Vec::new(), &mut registry);
    let y = Data::new_dynamic("f32", Some("y"), true, Vec::new(), &mut registry);
    assert_eq!(x.type_id(), y.type_id());
    assert_eq!(x.type_label(), "f32");
    assert_eq!(x.field_name(), Some("x"));
    assert_eq!(x.name(), "x");
    assert!(x.is_clone());
    let point = Data::new_dynamic("Point", None, false, vec![x, y], &mut registry);
    assert_eq!(point.name(), "Point");
    assert_eq!(point.field_name(), None);
    assert_eq!(point.fields().len(), 2);
    assert_eq!(point.field_by_name("y").unwrap().field_name(), Some("y"));
    assert!(point.field_by_name("z").is_none());
    assert_eq!(point.field_by_id(point.fields()[0].type_id()).unwrap().field_name(), Some("x"));
    let copy = point.duplicate();
    assert_eq!(copy.fields().len(), 2);
    assert_eq!(copy.type_id(), point.type_id());
}

#[test]
fn method_calls_are_checked() {
    let a = Data { type_id: 3, type_label: "u8".to_string(), field_name: None, fields: Vec::new(), is_clone: true };
    let b = Data { type_id: 5, type_label: "u32".to_string(), field_name: None, fields: Vec::new(), is_clone: true };
    let types = [MethodArgType::Ref(3), MethodArgType::Owned(5)];
    assert_eq!(check_arguments(&types, &[&a, &b]), Ok(()));
    assert_eq!(check_arguments(&types, &[&a]), Err(MethodCallError::ArgumentCount { given: 1, expected: 2 }));
    assert_eq!(check_arguments(&types, &[&b, &b]), Err(MethodCallError::ArgumentType { given: 5, expected: 3 }));
    assert_eq!(check_return(Some(MethodArgType::Owned(5)), &b), Ok(()));
    assert_eq!(check_return(Some(MethodArgType::Owned(3)), &b), Err(MethodCallError::ReturnType { given: 5, expected: 3 }));
    assert_eq!(check_return(None, &a), Ok(()));
}
