use simple_starter::container::ComponentContainer;
use simple_starter::events::{listener_targets, DefaultEventPublisher, EventListenerRegistration, ListenerIndex};
use simple_starter::extensions::Extensions;
use simple_starter::freeze_cell::{CellState, FreezeCell};
use std::any::TypeId;

struct Started;
struct Stopped;
struct Audit;
trait Listener {}

fn s(x: &str) -> String {
    x.to_string()
}

#[test]
fn freeze_cell_phases() {
    let mut cell = FreezeCell::new(5u32);
    assert_eq!(cell.state(), CellState::Building);
    assert_eq!(cell.get(true), Some(&5));
    assert_eq!(cell.get(false), None);
    *cell.get_mut().unwrap() = 6;
    assert_eq!(cell.set(7), Ok(()));
    cell.freeze();
    assert_eq!(cell.state(), CellState::Ready);
    assert_eq!(cell.get(false), Some(&7));
    assert!(cell.get_mut().is_none());
    assert_eq!(cell.set(8), Err(8));
    assert_eq!(cell.take(), Some(7));
    assert_eq!(cell.take(), None);
    assert_eq!(cell.state(), CellState::Building);
    assert_eq!(cell.get(true), None);
}

#[test]
fn freeze_cell_empty_and_clear() {
    let mut cell: FreezeCell<String> = FreezeCell::empty();
    assert!(cell.get_mut().is_none());
    assert_eq!(cell.take(), None);
    cell.set(s("v")).unwrap();
    cell.clear();
    assert_eq!(cell.get(true).map(|x| x.as_str()), Some("v"));
    cell.freeze();
    cell.clear();
    assert_eq!(cell.get(false), None);
    let d: FreezeCell<Vec<u8>> = FreezeCell::default();
    assert_eq!(d.get(true), Some(&Vec::new()));
}

#[test]
fn extensions_store_one_value_per_type() {
    let mut ext: Extensions<&'static str> = Extensions::new();
    let a = TypeId::of::<Started>();
    let b = TypeId::of::<Stopped>();
    assert_eq!(ext.insert(a, "first"), None);
    assert_eq!(ext.insert(a, "second"), Some("first"));
    assert_eq!(ext.get(&a), Some(&"second"));
    assert!(ext.contains(&a));
    assert!(!ext.contains(&b));
    *ext.get_mut(&a).unwrap() = "third";
    assert_eq!(ext.get(&a), Some(&"third"));
    assert!(ext.get_mut(&b).is_none());
    ext.insert(b, "other");
    assert_eq!(ext.remove(&a), Some("third"));
    assert_eq!(ext.remove(&a), None);
    assert!(!ext.contains(&a));
    assert_eq!(ext.get(&b), Some(&"other"));
    let d: Extensions<u8> = Extensions::default();
    assert!(!d.contains(&a));
}

#[test]
fn the_last_write_to_a_type_wins() {
    let mut ext: Extensions<u32> = Extensions::new();
    let a = TypeId::of::<Started>();
    let b = TypeId::of::<Stopped>();
    let c = TypeId::of::<Audit>();
    ext.insert(a, 1);
    ext.insert(b, 2);
    ext.insert(a, 3);
    ext.remove(&b);
    ext.insert(c, 4);
    ext.remove(&c);
    assert_eq!(ext.get(&a), Some(&3));
    assert_eq!(ext.get(&b), None);
    assert_eq!(ext.get(&c), None);
}

#[test]
fn listener_index_groups_by_event_type() {
    let mut ix: ListenerIndex<u32> = ListenerIndex::new();
    ix.add(TypeId::of::<Started>(), 1);
    ix.add(TypeId::of::<Stopped>(), 2);
    ix.add(TypeId::of::<Started>(), 3);
    assert_eq!(ix.listeners_for(&TypeId::of::<Started>()), Some(&vec![1, 3]));
    assert_eq!(ix.listeners_for(&TypeId::of::<Stopped>()), Some(&vec![2]));
    assert_eq!(ix.listeners_for(&TypeId::of::<Audit>()), None);
}

#[test]
fn publisher_collects_then_freezes() {
    let mut p: DefaultEventPublisher<&'static str> = DefaultEventPublisher::new();
    assert!(p.add_listener(TypeId::of::<Started>(), "audit"));
    assert_eq!(p.listeners_for(&TypeId::of::<Started>(), false), None);
    assert_eq!(p.listeners_for(&TypeId::of::<Started>(), true), Some(&vec!["audit"]));
    p.freeze();
    assert!(!p.add_listener(TypeId::of::<Started>(), "late"));
    assert_eq!(p.listeners_for(&TypeId::of::<Started>(), false), Some(&vec!["audit"]));
    assert_eq!(p.listeners_for(&TypeId::of::<Stopped>(), false), None);
    p.clear();
    assert_eq!(p.listeners_for(&TypeId::of::<Started>(), false), None);
}

#[test]
fn listening_components_are_found_by_type_and_trait_object() {
    let mut c: ComponentContainer<u8, &'static str> = ComponentContainer::new();
    for (name, value) in [("audit1", 1u8), ("audit2", 2u8), ("plain", 3u8)] {
        c.register_component(s(name), if name == "plain" { TypeId::of::<Stopped>() } else { TypeId::of::<Audit>() }, "T").unwrap();
        c.set_instance(&s(name), value).unwrap();
    }
    c.populate_trait_obj_cache(&s("audit1"), vec![(TypeId::of::<dyn Listener>(), "l1")]).unwrap();
    c.populate_trait_obj_cache(&s("audit2"), Vec::new()).unwrap();
    c.populate_trait_obj_cache(&s("plain"), vec![(TypeId::of::<dyn Listener>(), "lp")]).unwrap();
    let regs = vec![
        EventListenerRegistration {
            event_type_id: TypeId::of::<Started>(),
            listener_trait_type_id: TypeId::of::<dyn Listener>(),
            impl_type_id: TypeId::of::<Audit>(),
        },
        EventListenerRegistration {
            event_type_id: TypeId::of::<Stopped>(),
            listener_trait_type_id: TypeId::of::<dyn Listener>(),
            impl_type_id: TypeId::of::<Stopped>(),
        },
    ];
    let targets: Vec<(usize, &'static str)> = listener_targets(&c, &regs).into_iter().map(|(i, e)| (i, *e)).collect();
    assert_eq!(targets, vec![(0, "l1"), (1, "lp")]);
}
