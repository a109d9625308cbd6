use simple_starter::condition::{ComponentCondition, ConditionContext};
use simple_starter::config::ConfigValue;
use simple_starter::graph::{build_dependents, dependency_order, find_cycle, search_cycle, OrderOutcome};
use simple_starter::messages::cycle_path_text;
use simple_starter::index::{build_component_indexes, build_trait_impl_index, positions_of_type, TraitImplRegistration};
use simple_starter::names::{find_name, first_repeat};
use simple_starter::plugin_order::{sort_plugins_by_dependency, PluginOrderError};
use std::any::TypeId;

struct A;
struct B;
trait T1 {}

fn s(x: &str) -> String {
    x.to_string()
}

fn names(v: &[&str]) -> Vec<String> {
    v.iter().map(|x| s(x)).collect()
}

#[test]
fn plugins_start_after_their_dependencies() {
    let n = names(&["SecurityPlugin", "WebPlugin", "DbPlugin"]);
    let deps = vec![names(&["WebPlugin"]), names(&["DbPlugin"]), vec![]];
    assert_eq!(sort_plugins_by_dependency(&n, &deps).unwrap(), vec![2, 1, 0]);
    let free = names(&["X", "Y"]);
    assert_eq!(sort_plugins_by_dependency(&free, &vec![vec![], vec![]]).unwrap(), vec![0, 1]);
    assert_eq!(sort_plugins_by_dependency(&vec![], &vec![]).unwrap(), Vec::<usize>::new());
}

#[test]
fn plugin_order_errors() {
    match sort_plugins_by_dependency(&names(&["A", "B", "A"]), &vec![vec![], vec![], vec![]]) {
        Err(e) => {
            assert_eq!(e.message(), "Duplicate plugin name: 'A'");
            assert!(matches!(e, PluginOrderError::DuplicateName { name } if name == "A"));
        },
        other => panic!("unexpected {:?}", other),
    }
    match sort_plugins_by_dependency(&names(&["A", "B"]), &vec![vec![], names(&["Web"])]) {
        Err(e @ PluginOrderError::UnregisteredDependency { .. }) => {
            assert_eq!(e.message(), "Plugin 'B' depends on unregistered plugin 'Web'");
            let PluginOrderError::UnregisteredDependency { plugin, dependency } = e else { unreachable!() };
            assert_eq!(plugin, "B");
            assert_eq!(dependency, "Web");
        },
        other => panic!("unexpected {:?}", other),
    }
    match sort_plugins_by_dependency(&names(&["A", "B", "C"]), &vec![names(&["B"]), names(&["C"]), names(&["A"])]) {
        Err(e) => {
            assert_eq!(e.message(), "Circular dependency detected in plugins: [A -> B -> C -> A]");
            assert!(matches!(e, PluginOrderError::CircularDependency { cycle } if cycle == names(&["A", "B", "C", "A"])));
        },
        other => panic!("unexpected {:?}", other),
    }
    match sort_plugins_by_dependency(&names(&["Self"]), &vec![names(&["Self"])]) {
        Err(PluginOrderError::CircularDependency { cycle }) => assert_eq!(cycle, names(&["Self", "Self"])),
        other => panic!("unexpected {:?}", other),
    }
}

#[test]
fn kahn_order_and_blocked_nodes() {
    // 0 depends on 1, 1 on 2.
    match dependency_order(&vec![vec![1], vec![2], vec![]]) {
        OrderOutcome::Ordered(order) => assert_eq!(order, vec![2, 1, 0]),
        other => panic!("unexpected {:?}", other),
    }
    // 0 <-> 1 form a cycle; 2 depends on 0; 3 is free.
    let deps = vec![vec![1], vec![0], vec![0], vec![]];
    match dependency_order(&deps) {
        OrderOutcome::Blocked { blocked, dependents } => {
            assert_eq!(blocked, vec![0, 1, 2]);
            assert_eq!(dependents, build_dependents(&deps));
            let c = find_cycle(&deps, &blocked);
            assert_eq!(c, vec![0, 1, 0]);
        },
        other => panic!("unexpected {:?}", other),
    }
    assert_eq!(build_dependents(&vec![vec![1], vec![], vec![1]]), vec![vec![], vec![0, 2], vec![]]);
}

#[test]
fn name_lookups() {
    let n = names(&["a", "b", "a", "b"]);
    assert_eq!(find_name(&n, &s("b")), Some(1));
    assert_eq!(find_name(&n, &s("c")), None);
    assert_eq!(first_repeat(&n), Some(2));
    assert_eq!(first_repeat(&names(&["x", "y"])), None);
}

#[test]
fn indexes_group_in_registration_order() {
    let comps = vec![(s("a1"), TypeId::of::<A>()), (s("b1"), TypeId::of::<B>()), (s("a2"), TypeId::of::<A>())];
    let (all, by_type) = build_component_indexes(&comps);
    assert_eq!(all, names(&["a1", "b1", "a2"]));
    assert_eq!(by_type, vec![(TypeId::of::<A>(), names(&["a1", "a2"])), (TypeId::of::<B>(), names(&["b1"]))]);
    let regs = vec![
        TraitImplRegistration { trait_type_id: TypeId::of::<dyn T1>(), impl_type_id: TypeId::of::<A>() },
        TraitImplRegistration { trait_type_id: TypeId::of::<dyn T1>(), impl_type_id: TypeId::of::<B>() },
    ];
    assert_eq!(build_trait_impl_index(&regs), vec![(TypeId::of::<dyn T1>(), vec![TypeId::of::<A>(), TypeId::of::<B>()])]);
}

#[test]
fn registrations_of_one_concrete_type() {
    let ids = vec![TypeId::of::<A>(), TypeId::of::<B>(), TypeId::of::<A>()];
    assert_eq!(positions_of_type(&ids, &TypeId::of::<A>()), vec![0, 2]);
    assert_eq!(positions_of_type(&ids, &TypeId::of::<B>()), vec![1]);
    assert!(positions_of_type(&ids, &TypeId::of::<u8>()).is_empty());
}

#[test]
fn condition_context_queries() {
    let comps = vec![(s("a1"), TypeId::of::<A>()), (s("a2"), TypeId::of::<A>())];
    let regs = vec![TraitImplRegistration { trait_type_id: TypeId::of::<dyn T1>(), impl_type_id: TypeId::of::<A>() }];
    let ctx = ConditionContext::snapshot(&comps, &regs);
    assert!(ctx.has_component(&s("a1")));
    assert!(!ctx.has_component(&s("b")));
    assert!(ctx.has_type(&TypeId::of::<A>()));
    assert!(!ctx.has_type(&TypeId::of::<B>()));
    assert!(ctx.has_other_instance_of_type(&TypeId::of::<A>(), &s("a1")));
    let single = ConditionContext::snapshot(&vec![(s("a1"), TypeId::of::<A>())], &regs);
    assert!(!single.has_other_instance_of_type(&TypeId::of::<A>(), &s("a1")));
    let cfg = ConfigValue::Table(Vec::new());
    assert!(!ComponentCondition::on_missing_type(TypeId::of::<A>()).evaluate(&ctx, &s("a1"), &cfg, false));
    assert!(ComponentCondition::on_missing_type(TypeId::of::<A>()).evaluate(&single, &s("a1"), &cfg, false));
    assert!(!ComponentCondition::on_missing_trait(TypeId::of::<dyn T1>()).evaluate(&ctx, &s("a1"), &cfg, false));
    assert!(ComponentCondition::on_missing_trait(TypeId::of::<dyn T1>()).evaluate(&single, &s("a1"), &cfg, false));
    assert!(!ComponentCondition::on_property("x").evaluate(&ctx, &s("a1"), &cfg, true));
    assert!(ComponentCondition::Custom.evaluate(&ctx, &s("a1"), &cfg, true));
}

#[test]
fn cycle_search_over_any_graph() {
    let empty: Vec<Vec<usize>> = Vec::new();
    assert_eq!(search_cycle(&empty), None);
    assert_eq!(cycle_path_text(&empty, &Vec::new()), "Complex cycle detected: []");
    let chain = vec![vec![1], vec![2], vec![]];
    assert_eq!(search_cycle(&chain), None);
    assert_eq!(cycle_path_text(&chain, &names(&["a", "b", "c"])), "Complex cycle detected: []");
    // 2 depends on 0, 0 on 1, 1 on 0.
    let looped = vec![vec![1], vec![0], vec![0]];
    let c = search_cycle(&looped).unwrap();
    assert!(c == vec![0, 1, 0] || c == vec![1, 0, 1]);
    let text = cycle_path_text(&looped, &names(&["a", "b", "c"]));
    assert!(text == "a -> b -> a" || text == "b -> a -> b");
}
