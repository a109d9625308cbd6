//! Conditional registration: a component registers only when its condition
//! holds on a snapshot of everything registered (taken once, before any
//! condition is evaluated, so that the outcome does not depend on order).
use crate::config::{get_config_value_by_path, lookup_path, ConfigValue};
use crate::index::{
    build_component_indexes, build_trait_impl_index, distinct_keys, find_key, impls_of_trait,
    indexed_names, indexed_types, key_position, names_of_type, TraitImplRegistration,
};
use crate::names::find_name;
use std::any::TypeId;
use vstd::prelude::*;

verus! {

/// The condition under which a component registers.
#[derive(Debug)]
pub enum ComponentCondition {
    /// No other registered component is of this type ("default
    /// implementation, overridden by the user").
    OnMissingType(TypeId),
    /// No other registered component implements this trait (`dyn Trait`).
    OnMissingTrait(TypeId),
    /// The configuration holds the dotted path `key`, with the string value
    /// `expected` when one is given.
    OnProperty { key: String, expected: Option<String> },
    /// A predicate of the user's over the registration snapshot; its verdict
    /// is computed by the caller and handed to `evaluate`.
    Custom,
}

impl ComponentCondition {
    /// Condition: no other registered component is of the type `type_id`.
    pub fn on_missing_type(type_id: TypeId) -> (r: Self)
        ensures
            r == ComponentCondition::OnMissingType(type_id),
    {
        ComponentCondition::OnMissingType(type_id)
    }

    /// Condition: no other registered component implements the trait
    /// `trait_id` (the identity of `dyn Trait`).
    pub fn on_missing_trait(trait_id: TypeId) -> (r: Self)
        ensures
            r == ComponentCondition::OnMissingTrait(trait_id),
    {
        ComponentCondition::OnMissingTrait(trait_id)
    }

    /// Condition: the configuration holds the dotted path `key`.
    pub fn on_property(key: &str) -> (r: Self)
        ensures
            r matches ComponentCondition::OnProperty { key: k, expected: None } && k@ == key@,
    {
        ComponentCondition::OnProperty { key: String::from_str(key), expected: None }
    }

    /// Condition: the configuration value at the dotted path `key` is the
    /// string `expected`.
    pub fn on_property_eq(key: &str, expected: &str) -> (r: Self)
        ensures
            r matches ComponentCondition::OnProperty { key: k, expected: Some(e) } && k@ == key@ && e@
                == expected@,
    {
        ComponentCondition::OnProperty {
            key: String::from_str(key),
            expected: Some(String::from_str(expected)),
        }
    }
}

/// Snapshot of everything registered, taken before conditions are evaluated.
pub struct ConditionContext {
    registered_names: Vec<String>,
    type_instance_index: Vec<(TypeId, Vec<String>)>,
    registered_trait_impls: Vec<(TypeId, Vec<TypeId>)>,
}

impl ConditionContext {
    #[verifier::type_invariant]
    spec fn indexes_well_formed(&self) -> bool {
        &&& distinct_keys(self.type_instance_index@)
        &&& distinct_keys(self.registered_trait_impls@)
    }

    /// Names of all registered components.
    pub closed spec fn names(&self) -> Seq<Seq<char>> {
        self.registered_names.deep_view()
    }

    /// Names of the registered components of type `t`, in registration order.
    pub closed spec fn names_of(&self, t: TypeId) -> Seq<Seq<char>> {
        indexed_names(self.type_instance_index@, t)
    }

    /// Types registered as implementing the trait `tr`, in registration order.
    pub closed spec fn impls_of(&self, tr: TypeId) -> Seq<TypeId> {
        indexed_types(self.registered_trait_impls@, tr)
    }

    /// Some registered component of type `t` is named other than `candidate`.
    pub open spec fn other_instance(&self, t: TypeId, candidate: Seq<char>) -> bool {
        exists|i: int| 0 <= i < self.names_of(t).len() && #[trigger] self.names_of(t)[i] != candidate
    }

    /// Takes the snapshot of the registered components (name and type, in
    /// registration order) and of the registered trait implementations.
    pub fn snapshot(components: &Vec<(String, TypeId)>, trait_impls: &Vec<TraitImplRegistration>) -> (r: Self)
        ensures
            r.names() =~= components@.map_values(|c: (String, TypeId)| c.0@),
            forall|t: TypeId| #[trigger] r.names_of(t) == names_of_type(components@, t),
            forall|tr: TypeId| #[trigger] r.impls_of(tr) == impls_of_trait(trait_impls@, tr),
    {
        let (registered_names, type_instance_index) = build_component_indexes(components);
        let registered_trait_impls = build_trait_impl_index(trait_impls);
        ConditionContext { registered_names, type_instance_index, registered_trait_impls }
    }

    /// Whether a component of this name is registered.
    pub fn has_component(&self, name: &String) -> (r: bool)
        ensures
            r == self.names().contains(name@),
    {
        find_name(&self.registered_names, name).is_some()
    }

    /// Whether a component of this concrete type is registered.
    pub fn has_type(&self, type_id: &TypeId) -> (r: bool)
        ensures
            r == (self.names_of(*type_id).len() > 0),
    {
        proof {
            use_type_invariant(self);
        }
        match find_key(&self.type_instance_index, type_id) {
            Some(p) => {
                assert(self.type_instance_index@[p as int].1.deep_view().len() == self.type_instance_index@[p as int].1@.len());
                self.type_instance_index[p].1.len() > 0
            },
            None => false,
        }
    }

    /// Whether a registered component of type `type_id` is named other than
    /// `candidate`.
    pub fn has_other_instance_of_type(&self, type_id: &TypeId, candidate: &String) -> (r: bool)
        ensures
            r == self.other_instance(*type_id, candidate@),
    {
        proof {
            use_type_invariant(self);
        }
        match find_key(&self.type_instance_index, type_id) {
            Some(p) => {
                let names = &self.type_instance_index[p].1;
                let ghost nv = names.deep_view();
                assert(nv == self.names_of(*type_id));
                let mut i: usize = 0;
                while i < names.len()
                    invariant
                        i <= names@.len(),
                        nv == names.deep_view(),
                        nv == self.names_of(*type_id),
                        forall|j: int| 0 <= j < i ==> #[trigger] nv[j] == candidate@,
                    decreases names@.len() - i,
                {
                    if names[i] != *candidate {
                        assert(nv[i as int] != candidate@);
                        return true;
                    }
                    i = i + 1;
                }
                false
            },
            None => false,
        }
    }
}

/// Some component of type `t` (per `names_of`) is named other than `candidate`.
pub open spec fn other_instance_in(names_of: spec_fn(TypeId) -> Seq<Seq<char>>, t: TypeId, candidate: Seq<char>) -> bool {
    exists|i: int| 0 <= i < names_of(t).len() && #[trigger] names_of(t)[i] != candidate
}

/// The condition holds for the component named `candidate`, given the
/// registered components of each type (`names_of`) and the implementations
/// of each trait (`impls_of`); `custom_verdict` is the verdict of a
/// `Custom` condition.
pub open spec fn condition_holds_on(
    cond: ComponentCondition,
    names_of: spec_fn(TypeId) -> Seq<Seq<char>>,
    impls_of: spec_fn(TypeId) -> Seq<TypeId>,
    candidate: Seq<char>,
    config: ConfigValue,
    custom_verdict: bool,
) -> bool {
    match cond {
        ComponentCondition::OnMissingType(t) => !other_instance_in(names_of, t, candidate),
        ComponentCondition::OnMissingTrait(tr) => forall|k: int|
            0 <= k < impls_of(tr).len() ==> !other_instance_in(names_of, #[trigger] impls_of(tr)[k], candidate),
        ComponentCondition::OnProperty { key, expected } => match lookup_path(config, key@) {
            None => false,
            Some(v) => match expected {
                None => true,
                Some(e) => v matches ConfigValue::String(s) && s@ == e@,
            },
        },
        ComponentCondition::Custom => custom_verdict,
    }
}

/// The condition holds on the snapshot for the component named `candidate`;
/// `custom_verdict` is the verdict of a `Custom` condition.
pub open spec fn condition_holds(
    cond: ComponentCondition,
    ctx: ConditionContext,
    candidate: Seq<char>,
    config: ConfigValue,
    custom_verdict: bool,
) -> bool {
    condition_holds_on(cond, |t: TypeId| ctx.names_of(t), |tr: TypeId| ctx.impls_of(tr), candidate, config, custom_verdict)
}

impl ComponentCondition {
    /// Evaluates the condition for the component named `candidate`: the
    /// candidate itself never counts as "another" component.
    pub fn evaluate(&self, ctx: &ConditionContext, candidate: &String, config: &ConfigValue, custom_verdict: bool) -> (r: bool)
        ensures
            r == condition_holds(*self, *ctx, candidate@, *config, custom_verdict),
    {
        match self {
            ComponentCondition::OnMissingType(t) => !ctx.has_other_instance_of_type(t, candidate),
            ComponentCondition::OnMissingTrait(tr) => {
                proof {
                    use_type_invariant(ctx);
                }
                match find_key(&ctx.registered_trait_impls, tr) {
                    None => {
                        assert(ctx.impls_of(*tr).len() == 0);
                        true
                    },
                    Some(p) => {
                        let impls = &ctx.registered_trait_impls[p].1;
                        assert(impls@ == ctx.impls_of(*tr));
                        let mut k: usize = 0;
                        while k < impls.len()
                            invariant
                                k <= impls@.len(),
                                impls@ == ctx.impls_of(*tr),
                                *self == ComponentCondition::OnMissingTrait(*tr),
                                forall|j: int| 0 <= j < k ==> !ctx.other_instance(#[trigger] impls@[j], candidate@),
                            decreases impls@.len() - k,
                        {
                            if ctx.has_other_instance_of_type(&impls[k], candidate) {
                                let ghost nf = |t: TypeId| ctx.names_of(t);
                                let ghost imf = |t: TypeId| ctx.impls_of(t);
                                assert(imf(*tr)[k as int] == impls@[k as int]);
                                assert(other_instance_in(nf, imf(*tr)[k as int], candidate@)) by {
                                    let i = choose|i: int| 0 <= i < ctx.names_of(impls@[k as int]).len() && #[trigger] ctx.names_of(impls@[k as int])[i] != candidate@;
                                    assert(nf(impls@[k as int])[i] != candidate@);
                                }
                                assert(*self is OnMissingTrait);
                                assert(self->OnMissingTrait_0 == *tr);
                                assert(!condition_holds(*self, *ctx, candidate@, *config, custom_verdict));
                                return false;
                            }
                            k = k + 1;
                        }
                        true
                    },
                }
            },
            ComponentCondition::OnProperty { key, expected } => {
                match get_config_value_by_path(config, key.as_str()) {
                    None => false,
                    Some(value) => match expected {
                        None => true,
                        Some(exp) => match value {
                            ConfigValue::String(s) => *s == *exp,
                            _ => false,
                        },
                    },
                }
            },
            ComponentCondition::Custom => custom_verdict,
        }
    }
}

/// A "missing trait" condition fails as soon as some implementing type of
/// the trait, wherever it stands among the registered implementations, has
/// a registered component other than the candidate; it holds when none has.
pub proof fn law_missing_trait_sees_every_implementation(
    tr: TypeId,
    ctx: ConditionContext,
    candidate: Seq<char>,
    config: ConfigValue,
    custom_verdict: bool,
)
    ensures
        forall|k: int|
            0 <= k < ctx.impls_of(tr).len() && #[trigger] ctx.other_instance(ctx.impls_of(tr)[k], candidate)
                ==> !condition_holds(ComponentCondition::OnMissingTrait(tr), ctx, candidate, config, custom_verdict),
        (forall|k: int| 0 <= k < ctx.impls_of(tr).len() ==> !#[trigger] ctx.other_instance(ctx.impls_of(tr)[k], candidate))
            ==> condition_holds(ComponentCondition::OnMissingTrait(tr), ctx, candidate, config, custom_verdict),
{
    let nf = |t: TypeId| ctx.names_of(t);
    let imf = |t: TypeId| ctx.impls_of(t);
    let c = ComponentCondition::OnMissingTrait(tr);
    assert(c is OnMissingTrait && c->OnMissingTrait_0 == tr);
    assert forall|k: int|
        0 <= k < ctx.impls_of(tr).len() && #[trigger] ctx.other_instance(ctx.impls_of(tr)[k], candidate)
            implies !condition_holds(ComponentCondition::OnMissingTrait(tr), ctx, candidate, config, custom_verdict) by {
        let t = ctx.impls_of(tr)[k];
        let i = choose|i: int| 0 <= i < ctx.names_of(t).len() && #[trigger] ctx.names_of(t)[i] != candidate;
        assert(nf(t)[i] != candidate);
        assert(imf(tr) == ctx.impls_of(tr));
        assert(imf(tr)[k] == t);
        assert(other_instance_in(nf, imf(tr)[k], candidate));
        assert(!(forall|j: int| 0 <= j < imf(tr).len() ==> !other_instance_in(nf, #[trigger] imf(tr)[j], candidate)));
        assert(!condition_holds_on(ComponentCondition::OnMissingTrait(tr), nf, imf, candidate, config, custom_verdict));
    }
    if forall|k: int| 0 <= k < ctx.impls_of(tr).len() ==> !#[trigger] ctx.other_instance(ctx.impls_of(tr)[k], candidate) {
        assert forall|k: int| 0 <= k < imf(tr).len() implies !other_instance_in(nf, #[trigger] imf(tr)[k], candidate) by {
            let t = imf(tr)[k];
            assert(!ctx.other_instance(ctx.impls_of(tr)[k], candidate));
            if other_instance_in(nf, t, candidate) {
                let i = choose|i: int| 0 <= i < nf(t).len() && #[trigger] nf(t)[i] != candidate;
                assert(ctx.names_of(t)[i] != candidate);
            }
        }
        assert(condition_holds_on(ComponentCondition::OnMissingTrait(tr), nf, imf, candidate, config, custom_verdict));
    }
}
} // verus!
