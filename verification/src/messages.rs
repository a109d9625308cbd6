//! The messages of the planning errors.
use crate::component_plan::ComponentLoadError;
use crate::graph::{all_positions, has_dependency_cycle, is_cycle_within, search_cycle, well_formed};
use crate::names::{join_names, joined, names_at, names_at_positions};
use crate::plugin_order::PluginOrderError;
use crate::type_key::{type_id_debug, type_id_text};
use vstd::prelude::*;

verus! {

/// The text of a load error.
pub open spec fn load_error_text(e: ComponentLoadError) -> Seq<char> {
    match e {
        ComponentLoadError::DuplicateName { name } => "Duplicate component name detected: '"@ + name@
            + "'. Component names must be globally unique."@,
        ComponentLoadError::PrimaryNotRegistered { name } => "Primary instance '"@ + name@
            + "' is not registered. #[primary] name must match a registered provider component name."@,
        ComponentLoadError::DuplicatePrimary { existing, name } => "Duplicate primary instance for the same type: '"@
            + existing@ + "' and '"@ + name@
            + "'. Only one primary instance per concrete type is allowed."@,
        ComponentLoadError::UnregisteredDependency { dependency } => "Component depends on '"@ + dependency@ + "', but '"@
            + dependency@ + "' is not registered."@,
        ComponentLoadError::TraitWithoutImplementation { component, trait_type_id } => "Component '"@ + component@
            + "' depends on a trait (TypeId="@ + type_id_text(trait_type_id)
            + ") that has no registered implementations"@,
        ComponentLoadError::TraitWithoutInstances { component, trait_type_id } => "Component '"@ + component@
            + "' depends on a trait (TypeId="@ + type_id_text(trait_type_id)
            + ") that has no registered component instances"@,
        ComponentLoadError::TypeWithoutInstances { component, type_id } => "Component '"@ + component@
            + "' depends on type (TypeId="@ + type_id_text(type_id) + ") that has no registered component instances"@,
        ComponentLoadError::PrimaryMissing { component, type_id } => "Component '"@ + component@
            + "' depends on a primary instance (TypeId="@ + type_id_text(type_id)
            + ") that is not registered; a #[primary] must be declared on one of the type's providers"@,
        ComponentLoadError::CircularDependency { cycle } => "Circular dependency detected in components: ["@
            + joined(cycle.deep_view(), " -> "@) + "]"@,
    }
}

impl ComponentLoadError {
    /// The error's message.
    pub fn message(&self) -> (r: String)
        ensures
            r@ == load_error_text(*self),
    {
        match self {
            ComponentLoadError::DuplicateName { name } => {
                let mut r = String::from_str("Duplicate component name detected: '");
                r.append(name.as_str());
                r.append("'. Component names must be globally unique.");
                r
            },
            ComponentLoadError::PrimaryNotRegistered { name } => {
                let mut r = String::from_str("Primary instance '");
                r.append(name.as_str());
                r.append("' is not registered. #[primary] name must match a registered provider component name.");
                r
            },
            ComponentLoadError::DuplicatePrimary { existing, name } => {
                let mut r = String::from_str("Duplicate primary instance for the same type: '");
                r.append(existing.as_str());
                r.append("' and '");
                r.append(name.as_str());
                r.append("'. Only one primary instance per concrete type is allowed.");
                r
            },
            ComponentLoadError::UnregisteredDependency { dependency } => {
                let mut r = String::from_str("Component depends on '");
                r.append(dependency.as_str());
                r.append("', but '");
                r.append(dependency.as_str());
                r.append("' is not registered.");
                r
            },
            ComponentLoadError::TraitWithoutImplementation { component, trait_type_id } => {
                let mut r = String::from_str("Component '");
                r.append(component.as_str());
                r.append("' depends on a trait (TypeId=");
                r.append(type_id_debug(trait_type_id).as_str());
                r.append(") that has no registered implementations");
                r
            },
            ComponentLoadError::TraitWithoutInstances { component, trait_type_id } => {
                let mut r = String::from_str("Component '");
                r.append(component.as_str());
                r.append("' depends on a trait (TypeId=");
                r.append(type_id_debug(trait_type_id).as_str());
                r.append(") that has no registered component instances");
                r
            },
            ComponentLoadError::TypeWithoutInstances { component, type_id } => {
                let mut r = String::from_str("Component '");
                r.append(component.as_str());
                r.append("' depends on type (TypeId=");
                r.append(type_id_debug(type_id).as_str());
                r.append(") that has no registered component instances");
                r
            },
            ComponentLoadError::PrimaryMissing { component, type_id } => {
                let mut r = String::from_str("Component '");
                r.append(component.as_str());
                r.append("' depends on a primary instance (TypeId=");
                r.append(type_id_debug(type_id).as_str());
                r.append(") that is not registered; a #[primary] must be declared on one of the type's providers");
                r
            },
            ComponentLoadError::CircularDependency { cycle } => {
                let mut r = String::from_str("Circular dependency detected in components: [");
                r.append(join_names(cycle, " -> ").as_str());
                r.append("]");
                r
            },
        }
    }
}

/// The text of a plugin ordering error.
pub open spec fn plugin_error_text(e: PluginOrderError) -> Seq<char> {
    match e {
        PluginOrderError::DuplicateName { name } => "Duplicate plugin name: '"@ + name@ + "'"@,
        PluginOrderError::UnregisteredDependency { plugin, dependency } => "Plugin '"@ + plugin@
            + "' depends on unregistered plugin '"@ + dependency@ + "'"@,
        PluginOrderError::CircularDependency { cycle } => "Circular dependency detected in plugins: ["@ + joined(
            cycle.deep_view(),
            " -> "@,
        ) + "]"@,
    }
}

impl PluginOrderError {
    /// The error's message.
    pub fn message(&self) -> (r: String)
        ensures
            r@ == plugin_error_text(*self),
    {
        match self {
            PluginOrderError::DuplicateName { name } => {
                let mut r = String::from_str("Duplicate plugin name: '");
                r.append(name.as_str());
                r.append("'");
                r
            },
            PluginOrderError::UnregisteredDependency { plugin, dependency } => {
                let mut r = String::from_str("Plugin '");
                r.append(plugin.as_str());
                r.append("' depends on unregistered plugin '");
                r.append(dependency.as_str());
                r.append("'");
                r
            },
            PluginOrderError::CircularDependency { cycle } => {
                let mut r = String::from_str("Circular dependency detected in plugins: [");
                r.append(join_names(cycle, " -> ").as_str());
                r.append("]");
                r
            },
        }
    }
}

/// The path of a dependency cycle of the graph, each node named by
/// `names` and followed by the node it depends on, the first repeated at
/// the end (`a -> b -> a`); for a graph without cycle, the text
/// `Complex cycle detected: []` (no node is left unordered).
pub fn cycle_path_text(deps: &Vec<Vec<usize>>, names: &Vec<String>) -> (r: String)
    requires
        well_formed(deps@),
        names@.len() == deps@.len(),
    ensures
        has_dependency_cycle(deps@) ==> exists|c: Seq<usize>|
            #[trigger] is_cycle_within(deps@, all_positions(deps@.len() as int), c) && r@ == joined(
                names_at(names.deep_view(), c),
                " -> "@,
            ),
        !has_dependency_cycle(deps@) ==> r@ == "Complex cycle detected: []"@,
{
    match search_cycle(deps) {
        Some(c) => {
            let path = names_at_positions(names, &c);
            join_names(&path, " -> ")
        },
        None => String::from_str("Complex cycle detected: []"),
    }
}

} // verus!
