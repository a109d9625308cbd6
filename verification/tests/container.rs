use simple_starter::container::{shutdown_order, ComponentContainer, ComponentError};
use std::any::TypeId;

struct Db;
struct Mailer;
trait Sender {}
trait Named {}

fn s(x: &str) -> String {
    x.to_string()
}

/// A container with `db` (created, value 1), `mailer` and `mailer2` (both
/// `Mailer`, created with 2 and 3), `pending` (a `Db`, not created).
fn sample() -> ComponentContainer<u32, &'static str> {
    let mut c: ComponentContainer<u32, &'static str> = ComponentContainer::new();
    c.register_component(s("db"), TypeId::of::<Db>(), "Db").unwrap();
    c.register_component(s("mailer"), TypeId::of::<Mailer>(), "Mailer").unwrap();
    c.register_component(s("mailer2"), TypeId::of::<Mailer>(), "Mailer").unwrap();
    c.register_component(s("pending"), TypeId::of::<Db>(), "Db").unwrap();
    c.set_instance(&s("db"), 1).unwrap();
    c.set_instance(&s("mailer"), 2).unwrap();
    c.set_instance(&s("mailer2"), 3).unwrap();
    c.populate_trait_obj_cache(&s("db"), vec![(TypeId::of::<dyn Named>(), "db-named")]).unwrap();
    c.populate_trait_obj_cache(&s("mailer"), vec![(TypeId::of::<dyn Sender>(), "mailer-sender")]).unwrap();
    c.populate_trait_obj_cache(&s("mailer2"), vec![(TypeId::of::<dyn Sender>(), "mailer2-sender")]).unwrap();
    c.record_creation(s("db"));
    c.record_creation(s("mailer"));
    c.record_creation(s("mailer2"));
    c
}

#[test]
fn lookup_by_name_checks_presence_type_and_creation() {
    let c = sample();
    assert_eq!(*c.get_component_by_name(&s("db"), &TypeId::of::<Db>(), "Db").unwrap(), 1);
    assert!(matches!(
        c.get_component_by_name(&s("nope"), &TypeId::of::<Db>(), "Db"),
        Err(ComponentError::NotFound { type_label, name }) if type_label == "Db" && name == "nope"
    ));
    assert!(matches!(
        c.get_component_by_name(&s("db"), &TypeId::of::<Mailer>(), "Mailer"),
        Err(ComponentError::DowncastFailed { name, .. }) if name == "db"
    ));
    assert!(matches!(
        c.get_component_by_name(&s("pending"), &TypeId::of::<Db>(), "Db"),
        Err(ComponentError::NotInitialized { name, .. }) if name == "pending"
    ));
}

#[test]
fn lookup_by_type_prefers_the_default_name() {
    let c = sample();
    // `db` is the default name of `Db`, though `pending` is a `Db` too.
    assert_eq!(*c.get_component(&TypeId::of::<Db>(), &s("db"), "Db").unwrap(), 1);
    // Two mailers, none under the default name: ambiguous.
    match c.get_component(&TypeId::of::<Mailer>(), &s("Mailer"), "Mailer") {
        Err(ComponentError::AmbiguousComponent { candidates, .. }) => assert_eq!(candidates, vec![s("mailer"), s("mailer2")]),
        other => panic!("unexpected {:?}", other),
    }
    // No component of the type at all.
    assert!(matches!(
        c.get_component(&TypeId::of::<String>(), &s("String"), "String"),
        Err(ComponentError::NotFound { name, .. }) if name == "String"
    ));
}

#[test]
fn lookup_by_type_falls_back_to_the_only_instance() {
    let mut c: ComponentContainer<u32, ()> = ComponentContainer::new();
    c.register_component(s("customDb"), TypeId::of::<Db>(), "Db").unwrap();
    c.set_instance(&s("customDb"), 7).unwrap();
    c.populate_trait_obj_cache(&s("customDb"), Vec::new()).unwrap();
    assert_eq!(*c.get_component(&TypeId::of::<Db>(), &s("Db"), "Db").unwrap(), 7);
}

#[test]
fn primary_instance_wins() {
    let mut c = sample();
    c.set_primary_index(vec![(TypeId::of::<Mailer>(), s("mailer2"))]);
    assert_eq!(*c.get_primary_component(&TypeId::of::<Mailer>(), &s("Mailer"), "Mailer").unwrap(), 3);
    // Without a primary, the same resolution as `get_component`.
    assert_eq!(*c.get_primary_component(&TypeId::of::<Db>(), &s("db"), "Db").unwrap(), 1);
}

#[test]
fn all_components_of_a_type() {
    let c = sample();
    let mailers = c.get_component_by_type(&TypeId::of::<Mailer>(), "Mailer").unwrap();
    assert_eq!(mailers.into_iter().copied().collect::<Vec<_>>(), vec![2, 3]);
    // `pending` is a `Db` not created yet.
    assert!(matches!(
        c.get_component_by_type(&TypeId::of::<Db>(), "Db"),
        Err(ComponentError::NotInitialized { name, .. }) if name == "pending"
    ));
}

#[test]
fn trait_lookups() {
    let c = sample();
    assert_eq!(*c.get_component_by_trait(&TypeId::of::<dyn Named>(), "Named").unwrap(), "db-named");
    match c.get_component_by_trait(&TypeId::of::<dyn Sender>(), "Sender") {
        Err(ComponentError::AmbiguousTraitImpl { trait_name, candidates }) => {
            assert_eq!(trait_name, "Sender");
            assert_eq!(candidates, vec![s("mailer"), s("mailer2")]);
        },
        other => panic!("unexpected {:?}", other),
    }
    assert!(matches!(
        c.get_component_by_trait(&TypeId::of::<dyn Fn()>(), "Fn"),
        Err(ComponentError::TraitImplNotFound { trait_name }) if trait_name == "Fn"
    ));
    assert_eq!(
        c.get_components_by_trait(&TypeId::of::<dyn Sender>()).into_iter().copied().collect::<Vec<_>>(),
        vec!["mailer-sender", "mailer2-sender"]
    );
    assert_eq!(
        *c.get_component_by_trait_and_name(&TypeId::of::<dyn Sender>(), &s("mailer2"), "Sender").unwrap(),
        "mailer2-sender"
    );
    assert!(c.get_component_by_trait_and_name(&TypeId::of::<dyn Sender>(), &s("db"), "Sender").is_err());
}

#[test]
fn indexes_list_each_name_once() {
    let mut c = sample();
    c.populate_trait_obj_cache(&s("mailer"), vec![(TypeId::of::<dyn Sender>(), "again")]).unwrap();
    assert_eq!(c.get_component_names_by_type(&TypeId::of::<Mailer>()), vec![s("mailer"), s("mailer2")]);
    assert_eq!(c.get_impl_component_names_by_trait(&TypeId::of::<dyn Sender>()), vec![s("mailer"), s("mailer2")]);
    // The later trait object replaced the earlier one.
    assert_eq!(*c.get_component_by_trait_and_name(&TypeId::of::<dyn Sender>(), &s("mailer"), "Sender").unwrap(), "again");
}

#[test]
fn populate_requires_a_created_component() {
    let mut c = sample();
    match c.populate_trait_obj_cache(&s("ghost"), Vec::new()) {
        Err(ComponentError::InternalError { message }) => assert_eq!(message, "Component 'ghost' not found in repository"),
        other => panic!("unexpected {:?}", other),
    }
    match c.populate_trait_obj_cache(&s("pending"), Vec::new()) {
        Err(ComponentError::InternalError { message }) => assert_eq!(message, "Component 'pending' not created"),
        other => panic!("unexpected {:?}", other),
    }
}

#[test]
fn registering_a_name_twice_fails() {
    let mut c = sample();
    assert!(matches!(
        c.register_component(s("db"), TypeId::of::<Mailer>(), "Mailer"),
        Err(ComponentError::AlreadyExists { name, .. }) if name == "db"
    ));
    assert!(c.set_instance(&s("nobody"), 5).is_err());
}

#[test]
fn shutdown_goes_in_reverse_creation_order_once() {
    let mut c = sample();
    assert_eq!(c.creation_order_names(), vec![s("db"), s("mailer"), s("mailer2")]);
    let order = c.take_creation_order();
    assert!(c.creation_order_names().is_empty());
    assert_eq!(order, vec![s("db"), s("mailer"), s("mailer2")]);
    assert_eq!(shutdown_order(&order), vec![s("mailer2"), s("mailer"), s("db")]);
    assert!(c.take_creation_order().is_empty());
    c.clear_indexes();
    assert!(c.get_component_by_trait(&TypeId::of::<dyn Named>(), "Named").is_err());
    assert!(c.get_component_names_by_type(&TypeId::of::<Db>()).is_empty());
    assert!(matches!(c.remove_component(&s("db")), Some((t, Some(1))) if t == TypeId::of::<Db>()));
    assert!(!c.contains(&s("db")));
    assert!(c.remove_component(&s("db")).is_none());
    assert!(!c.is_empty());
}
