use simple_starter::component_plan::{
    build_creation_graph, build_primary_index, filter_components_by_condition, plan_component_load,
    topo_sort_creation, ComponentDeclaration, ComponentLoadError,
};
use simple_starter::condition::ComponentCondition;
use simple_starter::config::ConfigValue;
use simple_starter::index::{PrimaryRegistration, TraitImplRegistration};
use std::any::TypeId;

struct Repo;
struct Service;
struct Controller;
struct Cache;
struct MemoryCache;
trait Store {}
trait Notifier {}

fn s(x: &str) -> String {
    x.to_string()
}

fn decl(name: &str, t: TypeId) -> ComponentDeclaration {
    ComponentDeclaration {
        name: s(name),
        type_id: t,
        dependencies: Vec::new(),
        trait_dependencies: Vec::new(),
        type_dependencies: Vec::new(),
        primary_dependencies: Vec::new(),
        condition: None,
    }
}

fn empty_config() -> ConfigValue {
    ConfigValue::Table(Vec::new())
}

fn names_in_order(decls: &[ComponentDeclaration], order: &[usize]) -> Vec<String> {
    order.iter().map(|&i| decls[i].name.clone()).collect()
}

fn position(order: &[String], name: &str) -> usize {
    order.iter().position(|n| n == name).unwrap()
}

#[test]
fn dependencies_by_name_are_created_first() {
    let mut controller = decl("controller", TypeId::of::<Controller>());
    controller.dependencies.push(s("service"));
    let mut service = decl("service", TypeId::of::<Service>());
    service.dependencies.push(s("repo"));
    let repo = decl("repo", TypeId::of::<Repo>());
    let decls = vec![controller, service, repo];
    let verdicts = vec![false; 3];
    let order = plan_component_load(&decls, &Vec::new(), &Vec::new(), &empty_config(), &verdicts).unwrap();
    assert_eq!(names_in_order(&decls, &order), vec![s("repo"), s("service"), s("controller")]);
}

#[test]
fn independent_components_keep_declaration_order() {
    let decls = vec![decl("a", TypeId::of::<Repo>()), decl("b", TypeId::of::<Service>()), decl("c", TypeId::of::<Cache>())];
    let order = plan_component_load(&decls, &Vec::new(), &Vec::new(), &empty_config(), &vec![false; 3]).unwrap();
    assert_eq!(order, vec![0, 1, 2]);
}

#[test]
fn trait_dependency_waits_for_every_implementation() {
    let mut service = decl("service", TypeId::of::<Service>());
    service.trait_dependencies.push(TypeId::of::<dyn Store>());
    let repo = decl("repo", TypeId::of::<Repo>());
    let cache = decl("cache", TypeId::of::<Cache>());
    let decls = vec![service, repo, cache];
    let impls = vec![
        TraitImplRegistration { trait_type_id: TypeId::of::<dyn Store>(), impl_type_id: TypeId::of::<Repo>() },
        TraitImplRegistration { trait_type_id: TypeId::of::<dyn Store>(), impl_type_id: TypeId::of::<Cache>() },
    ];
    let order = plan_component_load(&decls, &impls, &Vec::new(), &empty_config(), &vec![false; 3]).unwrap();
    let names = names_in_order(&decls, &order);
    assert!(position(&names, "repo") < position(&names, "service"));
    assert!(position(&names, "cache") < position(&names, "service"));
    assert_eq!(names.len(), 3);
}

#[test]
fn type_dependency_waits_for_every_instance_of_the_type() {
    let mut service = decl("service", TypeId::of::<Service>());
    service.type_dependencies.push(TypeId::of::<Cache>());
    let decls = vec![service, decl("cache_a", TypeId::of::<Cache>()), decl("cache_b", TypeId::of::<Cache>())];
    let order = plan_component_load(&decls, &Vec::new(), &Vec::new(), &empty_config(), &vec![false; 3]).unwrap();
    assert_eq!(names_in_order(&decls, &order), vec![s("cache_a"), s("cache_b"), s("service")]);
}

#[test]
fn primary_dependency_waits_only_for_the_primary() {
    let mut service = decl("service", TypeId::of::<Service>());
    service.primary_dependencies.push(TypeId::of::<Cache>());
    let mut other = decl("other", TypeId::of::<Cache>());
    other.dependencies.push(s("service"));
    let decls = vec![service, other, decl("main_cache", TypeId::of::<Cache>())];
    let prims = vec![PrimaryRegistration { type_id: TypeId::of::<Cache>(), name: s("main_cache") }];
    let order = plan_component_load(&decls, &Vec::new(), &prims, &empty_config(), &vec![false; 3]).unwrap();
    assert_eq!(names_in_order(&decls, &order), vec![s("main_cache"), s("service"), s("other")]);
}

#[test]
fn duplicate_component_name_is_rejected() {
    let decls = vec![decl("a", TypeId::of::<Repo>()), decl("b", TypeId::of::<Service>()), decl("a", TypeId::of::<Cache>())];
    match plan_component_load(&decls, &Vec::new(), &Vec::new(), &empty_config(), &vec![false; 3]) {
        Err(ComponentLoadError::DuplicateName { name }) => assert_eq!(name, "a"),
        other => panic!("unexpected {:?}", other),
    }
}

#[test]
fn missing_type_condition_yields_to_a_user_component() {
    let mut default_cache = decl("defaultCache", TypeId::of::<MemoryCache>());
    default_cache.condition = Some(ComponentCondition::on_missing_type(TypeId::of::<MemoryCache>()));
    let user_cache = decl("userCache", TypeId::of::<MemoryCache>());
    let decls = vec![default_cache, user_cache];
    let kept = filter_components_by_condition(&decls, &Vec::new(), &empty_config(), &vec![false; 2]);
    assert_eq!(kept, vec![1]);
}

#[test]
fn missing_type_condition_registers_when_alone() {
    let mut default_cache = decl("defaultCache", TypeId::of::<MemoryCache>());
    default_cache.condition = Some(ComponentCondition::on_missing_type(TypeId::of::<MemoryCache>()));
    let decls = vec![default_cache, decl("repo", TypeId::of::<Repo>())];
    let kept = filter_components_by_condition(&decls, &Vec::new(), &empty_config(), &vec![false; 2]);
    assert_eq!(kept, vec![0, 1]);
}

#[test]
fn missing_trait_condition_yields_to_another_implementation() {
    let mut default_notifier = decl("defaultNotifier", TypeId::of::<MemoryCache>());
    default_notifier.condition = Some(ComponentCondition::on_missing_trait(TypeId::of::<dyn Notifier>()));
    let mail = decl("mail", TypeId::of::<Service>());
    let decls = vec![default_notifier, mail];
    let impls = vec![
        TraitImplRegistration { trait_type_id: TypeId::of::<dyn Notifier>(), impl_type_id: TypeId::of::<MemoryCache>() },
        TraitImplRegistration { trait_type_id: TypeId::of::<dyn Notifier>(), impl_type_id: TypeId::of::<Service>() },
    ];
    assert_eq!(filter_components_by_condition(&decls, &impls, &empty_config(), &vec![false; 2]), vec![1]);
    // Alone, the default registers: its own type does not count against it.
    let decls2 = vec![decls.into_iter().next().unwrap()];
    assert_eq!(filter_components_by_condition(&decls2, &impls, &empty_config(), &vec![false]), vec![0]);
}

#[test]
fn trait_dependency_uses_the_implementations_that_remain() {
    // The default notifier yields to the user's; the component that depends
    // on the trait then depends on the user's instance only.
    let mut default_notifier = decl("defaultNotifier", TypeId::of::<MemoryCache>());
    default_notifier.condition = Some(ComponentCondition::on_missing_trait(TypeId::of::<dyn Notifier>()));
    let user_notifier = decl("mail", TypeId::of::<Service>());
    let mut consumer = decl("consumer", TypeId::of::<Controller>());
    consumer.trait_dependencies.push(TypeId::of::<dyn Notifier>());
    let decls = vec![consumer, default_notifier, user_notifier];
    let impls = vec![
        TraitImplRegistration { trait_type_id: TypeId::of::<dyn Notifier>(), impl_type_id: TypeId::of::<MemoryCache>() },
        TraitImplRegistration { trait_type_id: TypeId::of::<dyn Notifier>(), impl_type_id: TypeId::of::<Service>() },
    ];
    let verdicts = vec![false; 3];
    let kept = filter_components_by_condition(&decls, &impls, &empty_config(), &verdicts);
    assert_eq!(kept, vec![0, 2]);
    assert_eq!(build_creation_graph(&decls, &kept, &impls, &Vec::new()).unwrap(), vec![vec![1], vec![]]);
    let order = plan_component_load(&decls, &impls, &Vec::new(), &empty_config(), &verdicts).unwrap();
    assert_eq!(names_in_order(&decls, &order), vec![s("mail"), s("consumer")]);
}

#[test]
fn mutually_exclusive_conditions_see_each_other_in_the_snapshot() {
    let mut a = decl("a", TypeId::of::<Repo>());
    a.condition = Some(ComponentCondition::on_missing_type(TypeId::of::<Service>()));
    let mut b = decl("b", TypeId::of::<Service>());
    b.condition = Some(ComponentCondition::on_missing_type(TypeId::of::<Repo>()));
    // Each sees the other in the snapshot, so neither registers.
    let decls = vec![a, b];
    assert_eq!(filter_components_by_condition(&decls, &Vec::new(), &empty_config(), &vec![false; 2]), Vec::<usize>::new());
}

#[test]
fn property_conditions_read_the_configuration() {
    let config = ConfigValue::Table(vec![(
        s("feature"),
        ConfigValue::Table(vec![(s("cache"), ConfigValue::String(s("redis"))), (s("on"), ConfigValue::Boolean(true))]),
    )]);
    let mut a = decl("a", TypeId::of::<Repo>());
    a.condition = Some(ComponentCondition::on_property("feature.on"));
    let mut b = decl("b", TypeId::of::<Service>());
    b.condition = Some(ComponentCondition::on_property_eq("feature.cache", "redis"));
    let mut c = decl("c", TypeId::of::<Cache>());
    c.condition = Some(ComponentCondition::on_property_eq("feature.cache", "memory"));
    let mut d = decl("d", TypeId::of::<Controller>());
    d.condition = Some(ComponentCondition::on_property("feature.missing"));
    let mut e = decl("e", TypeId::of::<MemoryCache>());
    e.condition = Some(ComponentCondition::on_property_eq("feature.on", "true"));
    let decls = vec![a, b, c, d, e];
    assert_eq!(filter_components_by_condition(&decls, &Vec::new(), &config, &vec![false; 5]), vec![0, 1]);
}

#[test]
fn custom_conditions_follow_their_verdict() {
    let mut a = decl("a", TypeId::of::<Repo>());
    a.condition = Some(ComponentCondition::Custom);
    let mut b = decl("b", TypeId::of::<Service>());
    b.condition = Some(ComponentCondition::Custom);
    let decls = vec![a, b];
    assert_eq!(filter_components_by_condition(&decls, &Vec::new(), &empty_config(), &vec![true, false]), vec![0]);
}

#[test]
fn removed_component_is_an_unregistered_dependency() {
    let mut service = decl("service", TypeId::of::<Service>());
    service.dependencies.push(s("repo"));
    let mut repo = decl("repo", TypeId::of::<Repo>());
    repo.condition = Some(ComponentCondition::Custom);
    let decls = vec![service, repo];
    match plan_component_load(&decls, &Vec::new(), &Vec::new(), &empty_config(), &vec![false, false]) {
        Err(e) => {
            assert_eq!(e.message(), "Component depends on 'repo', but 'repo' is not registered.");
            assert!(matches!(e, ComponentLoadError::UnregisteredDependency { dependency } if dependency == "repo"));
        },
        other => panic!("unexpected {:?}", other),
    }
}

#[test]
fn primary_errors() {
    let decls = vec![decl("a", TypeId::of::<Cache>()), decl("b", TypeId::of::<Cache>())];
    let names = vec![s("a"), s("b")];
    let unknown = vec![PrimaryRegistration { type_id: TypeId::of::<Cache>(), name: s("zzz") }];
    match build_primary_index(&unknown, &names) {
        Err(ComponentLoadError::PrimaryNotRegistered { name }) => {
            assert_eq!(name, "zzz");
            let e = ComponentLoadError::PrimaryNotRegistered { name };
            assert_eq!(
                e.message(),
                "Primary instance 'zzz' is not registered. #[primary] name must match a registered provider component name."
            );
        },
        other => panic!("unexpected {:?}", other),
    }
    let twice = vec![
        PrimaryRegistration { type_id: TypeId::of::<Cache>(), name: s("a") },
        PrimaryRegistration { type_id: TypeId::of::<Cache>(), name: s("b") },
    ];
    match plan_component_load(&decls, &Vec::new(), &twice, &empty_config(), &vec![false; 2]) {
        Err(ComponentLoadError::DuplicatePrimary { existing, name }) => {
            assert_eq!(existing, "a");
            assert_eq!(name, "b");
        },
        other => panic!("unexpected {:?}", other),
    }
    let ok = vec![PrimaryRegistration { type_id: TypeId::of::<Cache>(), name: s("b") }];
    let idx = build_primary_index(&ok, &names).unwrap();
    assert_eq!(idx.len(), 1);
    assert_eq!(idx[0].1, "b");
}

#[test]
fn dependency_faults_are_reported() {
    let mut service = decl("service", TypeId::of::<Service>());
    service.trait_dependencies.push(TypeId::of::<dyn Store>());
    let decls = vec![service];
    match plan_component_load(&decls, &Vec::new(), &Vec::new(), &empty_config(), &vec![false]) {
        Err(ComponentLoadError::TraitWithoutImplementation { component, trait_type_id }) => {
            assert_eq!(component, "service");
            assert_eq!(trait_type_id, TypeId::of::<dyn Store>());
        },
        other => panic!("unexpected {:?}", other),
    }
    let impls = vec![TraitImplRegistration { trait_type_id: TypeId::of::<dyn Store>(), impl_type_id: TypeId::of::<Repo>() }];
    match plan_component_load(&decls, &impls, &Vec::new(), &empty_config(), &vec![false]) {
        Err(ComponentLoadError::TraitWithoutInstances { component, trait_type_id }) => {
            assert_eq!(component, "service");
            assert_eq!(trait_type_id, TypeId::of::<dyn Store>());
            let e = ComponentLoadError::TraitWithoutInstances { component, trait_type_id };
            assert_eq!(
                e.message(),
                format!(
                    "Component 'service' depends on a trait (TypeId={:?}) that has no registered component instances",
                    TypeId::of::<dyn Store>()
                )
            );
        },
        other => panic!("unexpected {:?}", other),
    }
    let mut needs_type = decl("service", TypeId::of::<Service>());
    needs_type.type_dependencies.push(TypeId::of::<Cache>());
    match plan_component_load(&vec![needs_type], &Vec::new(), &Vec::new(), &empty_config(), &vec![false]) {
        Err(ComponentLoadError::TypeWithoutInstances { component, type_id }) => {
            assert_eq!(component, "service");
            assert_eq!(type_id, TypeId::of::<Cache>());
        },
        other => panic!("unexpected {:?}", other),
    }
    let mut needs_primary = decl("service", TypeId::of::<Service>());
    needs_primary.primary_dependencies.push(TypeId::of::<Cache>());
    let decls = vec![needs_primary, decl("cache", TypeId::of::<Cache>())];
    match plan_component_load(&decls, &Vec::new(), &Vec::new(), &empty_config(), &vec![false; 2]) {
        Err(ComponentLoadError::PrimaryMissing { component, type_id }) => {
            assert_eq!(component, "service");
            assert_eq!(type_id, TypeId::of::<Cache>());
        },
        other => panic!("unexpected {:?}", other),
    }
}

#[test]
fn circular_dependency_is_reported_as_a_path() {
    let mut a = decl("a", TypeId::of::<Repo>());
    a.dependencies.push(s("b"));
    let mut b = decl("b", TypeId::of::<Service>());
    b.dependencies.push(s("a"));
    let c = decl("c", TypeId::of::<Cache>());
    let decls = vec![c, a, b];
    match plan_component_load(&decls, &Vec::new(), &Vec::new(), &empty_config(), &vec![false; 3]) {
        Err(e) => {
            assert_eq!(e.message(), "Circular dependency detected in components: [a -> b -> a]");
            assert!(matches!(e, ComponentLoadError::CircularDependency { cycle } if cycle == vec![s("a"), s("b"), s("a")]));
        },
        other => panic!("unexpected {:?}", other),
    }
}

#[test]
fn creation_graph_merges_dependencies_of_all_kinds() {
    let mut service = decl("service", TypeId::of::<Service>());
    service.dependencies.push(s("repo"));
    service.type_dependencies.push(TypeId::of::<Repo>());
    service.trait_dependencies.push(TypeId::of::<dyn Store>());
    let decls = vec![service, decl("repo", TypeId::of::<Repo>())];
    let impls = vec![TraitImplRegistration { trait_type_id: TypeId::of::<dyn Store>(), impl_type_id: TypeId::of::<Repo>() }];
    let graph = build_creation_graph(&decls, &vec![0, 1], &impls, &Vec::new()).unwrap();
    assert_eq!(graph, vec![vec![1], vec![]]);
    let names = vec![s("service"), s("repo")];
    assert_eq!(topo_sort_creation(&graph, &names).unwrap(), vec![1, 0]);
}
