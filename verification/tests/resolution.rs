use std::rc::Rc;
use std::sync::Arc;
use syringe::inject::Inject;
use syringe::inject::Value;
use syringe::module::Module;
use syringe::provider::Instance;
use syringe::provider::Provider;
use syringe::provider::Singleton;
use syringe::provider::Transient;
use syringe::resolve::ErrorKind;
use syringe::resolve::Plan;
use syringe::runtime::Runtime;
use syringe::select_provider::ProviderIndex;
use syringe::select_provider::SelectOutcome;

const CONFIG: u64 = 1;
const SERVICE: u64 = 2;
const REPO: u64 = 3;

fn instance(ty: u64, token: u64) -> Provider {
    Provider::Instance(Instance::new(Value { ty, token, deps: vec![] }))
}

fn transient(target: u64, deps: Vec<u64>) -> Provider {
    Provider::Transient(Transient::new(Inject { target, deps }))
}

fn singleton(target: u64, deps: Vec<u64>) -> Provider {
    Provider::Singleton(Singleton::new(Inject { target, deps }))
}

#[test]
fn resolves_single_instance() {
    let root = Module::new().add(instance(CONFIG, 42));
    let mut rt = Runtime::new();
    let v = root.resolve(CONFIG, &mut rt).unwrap();
    assert_eq!(v.ty, CONFIG);
    assert_eq!(v.token, 42);
    assert!(v.deps.is_empty());
}

#[test]
fn transient_resolution_is_not_idempotent() {
    let root = Module::new().add(transient(SERVICE, vec![]));
    let mut rt = Runtime::new();
    let a = root.resolve(SERVICE, &mut rt).unwrap();
    let b = root.resolve(SERVICE, &mut rt).unwrap();
    assert_eq!(a.ty, SERVICE);
    assert_eq!(b.ty, SERVICE);
    assert_ne!(a.token, b.token);
}

#[test]
fn singleton_resolution_is_idempotent() {
    let root = Module::new().add(singleton(SERVICE, vec![]));
    let mut rt = Runtime::new();
    let a = root.resolve(SERVICE, &mut rt).unwrap();
    let b = root.resolve(SERVICE, &mut rt).unwrap();
    assert_eq!(a.ty, SERVICE);
    assert_eq!(a.token, b.token);
    assert_eq!(a.deps, b.deps);
}

#[test]
fn singleton_is_shared_across_forks() {
    let root = Module::new().add(singleton(SERVICE, vec![]));
    let mut rt = Runtime::new();
    let child = root.fork(&mut rt);
    let sibling = root.fork(&mut rt);
    let from_parent = root.resolve(SERVICE, &mut rt).unwrap();
    let from_child = child.resolve(SERVICE, &mut rt).unwrap();
    let from_sibling = sibling.resolve(SERVICE, &mut rt).unwrap();
    assert_eq!(from_parent.token, from_child.token);
    assert_eq!(from_parent.token, from_sibling.token);
}

#[test]
fn child_provider_shadows_parent() {
    let root = Module::new().add(instance(SERVICE, 7));
    let mut rt = Runtime::new();
    let child = root.fork(&mut rt).add(transient(SERVICE, vec![]));
    let from_child = child.resolve(SERVICE, &mut rt).unwrap();
    assert_ne!(from_child.token, 7);
    let from_parent = root.resolve(SERVICE, &mut rt).unwrap();
    assert_eq!(from_parent.token, 7);
}

#[test]
fn ambiguous_registration_fails_assembly() {
    let root = Module::new().add(instance(SERVICE, 1)).add(transient(SERVICE, vec![]));
    assert!(root.validate(CONFIG).is_err());
    let err = root.validate(SERVICE).unwrap_err();
    assert_eq!(err.kind, ErrorKind::AmbiguousProvider);
    assert_eq!(err.ty, SERVICE);
    let mut rt = Runtime::new();
    assert!(root.resolve(SERVICE, &mut rt).is_err());
}

#[test]
fn shadowing_is_not_ambiguity() {
    let root = Module::new().add(instance(SERVICE, 1));
    let mut rt = Runtime::new();
    let child = root.fork(&mut rt).add(instance(SERVICE, 2));
    let v = child.resolve(SERVICE, &mut rt).unwrap();
    assert_eq!(v.token, 2);
}

#[test]
fn missing_provider_fails_assembly() {
    let root = Module::new();
    let err = root.validate(SERVICE).unwrap_err();
    assert_eq!(err.kind, ErrorKind::MissingProvider);
    assert_eq!(err.ty, SERVICE);
    assert_eq!(err.trail, vec![SERVICE]);
    let mut rt = Runtime::new();
    assert!(root.resolve(SERVICE, &mut rt).is_err());
}

#[test]
fn missing_dependency_names_the_type_and_trail() {
    let root = Module::new().add(transient(SERVICE, vec![REPO]));
    let err = root.validate(SERVICE).unwrap_err();
    assert_eq!(err.kind, ErrorKind::MissingProvider);
    assert_eq!(err.ty, REPO);
    assert_eq!(err.trail, vec![SERVICE, REPO]);
}

#[test]
fn circular_dependency_fails_assembly() {
    let root = Module::new().add(transient(SERVICE, vec![SERVICE]));
    let err = root.validate(SERVICE).unwrap_err();
    assert_eq!(err.kind, ErrorKind::CircularDependency);
    assert_eq!(err.ty, SERVICE);
    assert_eq!(err.trail, vec![SERVICE, SERVICE]);
}

#[test]
fn validation_runs_no_provider() {
    let root = Module::new().add(transient(SERVICE, vec![CONFIG])).add(instance(CONFIG, 5));
    assert!(root.validate(SERVICE).is_ok());
    let mut rt = Runtime::new();
    let first = root.resolve(SERVICE, &mut rt).unwrap();
    assert_eq!(first.token, 0);
}

#[test]
fn dependencies_are_resolved_positionally() {
    let root = Module::new()
        .add(instance(CONFIG, 41))
        .add(instance(REPO, 43))
        .add(transient(SERVICE, vec![CONFIG, REPO]));
    let mut rt = Runtime::new();
    let v = root.resolve(SERVICE, &mut rt).unwrap();
    assert_eq!(v.deps, vec![41, 43]);
}

#[test]
fn end_to_end_across_scopes() {
    let root = Module::new().add(instance(CONFIG, 42));
    let mut rt = Runtime::new();
    let child = root.fork(&mut rt).add(transient(SERVICE, vec![CONFIG]));
    let service = child.resolve(SERVICE, &mut rt).unwrap();
    assert_eq!(service.ty, SERVICE);
    assert_eq!(service.deps, vec![42]);
    let sibling = root.fork(&mut rt);
    let config = sibling.resolve(CONFIG, &mut rt).unwrap();
    assert_eq!(config.token, 42);
}

#[test]
fn parent_singleton_picks_up_child_dependencies() {
    let root = Module::new().add(singleton(SERVICE, vec![CONFIG]));
    let mut rt = Runtime::new();
    let child = root.fork(&mut rt).add(instance(CONFIG, 9));
    assert!(root.validate(SERVICE).is_err());
    let v = child.resolve(SERVICE, &mut rt).unwrap();
    assert_eq!(v.deps, vec![9]);
    let again = child.resolve(SERVICE, &mut rt).unwrap();
    assert_eq!(v.token, again.token);
}

#[test]
fn selection_reports_where_the_provider_stands() {
    let root = Module::new().add(instance(CONFIG, 1));
    match root.select(CONFIG) {
        SelectOutcome::Found(ProviderIndex::AtSelf(s)) => assert_eq!(s.index, 0),
        other => panic!("expected a local provider, got {:?}", other),
    }
    let mut rt = Runtime::new();
    let child = root.fork(&mut rt);
    match child.select(CONFIG) {
        SelectOutcome::Found(ProviderIndex::AtParent(p)) => {
            assert_eq!(p.levels_up, 1);
            assert_eq!(p.index, 0);
        },
        other => panic!("expected an ancestor provider, got {:?}", other),
    }
    assert!(matches!(child.select(SERVICE), SelectOutcome::Missing));
}

#[test]
fn plans_freeze_the_wiring() {
    let root = Module::new().add(singleton(SERVICE, vec![]));
    let mut rt = Runtime::new();
    let child = root.fork(&mut rt);
    match child.plan(SERVICE).unwrap() {
        Plan::Singleton { ty, scope, index, deps } => {
            assert_eq!(ty, SERVICE);
            assert_eq!(scope, 0);
            assert_eq!(index, 0);
            assert!(deps.is_empty());
        },
        other => panic!("expected a singleton plan, got {:?}", other),
    }
}

#[test]
fn fork_rc_shares_the_parent() {
    let root = Rc::new(Module::new().add(instance(CONFIG, 42)));
    let mut rt = Runtime::new();
    let child = Module::fork_rc(&root, &mut rt);
    let v = child.resolve(CONFIG, &mut rt).unwrap();
    assert_eq!(v.token, 42);
}

#[test]
fn fork_arc_shares_the_parent() {
    let root = Arc::new(Module::new().add(singleton(SERVICE, vec![])));
    let mut rt = Runtime::new();
    let child = Module::fork_arc(&root, &mut rt);
    let sibling = Module::fork_arc(&root, &mut rt);
    let a = child.resolve(SERVICE, &mut rt).unwrap();
    let b = sibling.resolve(SERVICE, &mut rt).unwrap();
    assert_eq!(a.token, b.token);
}

#[test]
fn instance_values_keep_their_dependencies() {
    let prewired = Value { ty: SERVICE, token: 11, deps: vec![42] };
    let root = Module::new().add(Provider::Instance(Instance::new(prewired)));
    let mut rt = Runtime::new();
    let v = root.resolve(SERVICE, &mut rt).unwrap();
    assert_eq!(v.token, 11);
    assert_eq!(v.deps, vec![42]);
}

#[test]
fn deeper_scopes_still_reach_the_root() {
    let root = Module::new().add(instance(CONFIG, 42));
    let mut rt = Runtime::new();
    let grandchild = root.fork(&mut rt).fork(&mut rt).add(transient(SERVICE, vec![CONFIG]));
    let v = grandchild.resolve(SERVICE, &mut rt).unwrap();
    assert_eq!(v.deps, vec![42]);
    assert_eq!(grandchild.depth(), 2);
}

#[test]
fn dependency_lists_resolve_in_order() {
    let root = Module::new()
        .add(instance(CONFIG, 42))
        .add(singleton(REPO, vec![CONFIG]))
        .add(transient(SERVICE, vec![REPO]));
    let mut rt = Runtime::new();
    let vs = root.resolve_dependencies(&vec![CONFIG, REPO, SERVICE], &mut rt).unwrap();
    assert_eq!(vs.len(), 3);
    assert_eq!(vs[0].ty, CONFIG);
    assert_eq!(vs[1].ty, REPO);
    assert_eq!(vs[2].ty, SERVICE);
    assert_eq!(vs[0].token, 42);
    assert_eq!(vs[1].deps, vec![42]);
}

#[test]
fn dependency_lists_fail_on_the_first_missing_type() {
    let root = Module::new().add(instance(CONFIG, 1));
    let mut rt = Runtime::new();
    let err = root.resolve_dependencies(&vec![CONFIG, SERVICE], &mut rt).unwrap_err();
    assert_eq!(err.kind, ErrorKind::MissingProvider);
    assert_eq!(err.ty, SERVICE);
}

#[test]
fn default_scope_is_an_empty_root() {
    let root = Module::default();
    let err = root.validate(CONFIG).unwrap_err();
    assert_eq!(err.kind, ErrorKind::MissingProvider);
}

#[test]
fn dependencies_run_before_the_cell_is_consulted() {
    let root = Module::new().add(transient(REPO, vec![])).add(singleton(SERVICE, vec![REPO]));
    let mut rt = Runtime::new();
    let first = root.resolve(SERVICE, &mut rt).unwrap();
    assert_eq!(first.deps, vec![0]);
    assert_eq!(first.token, 1);
    let second = root.resolve(SERVICE, &mut rt).unwrap();
    assert_eq!(second.token, 1);
    let repo = root.resolve(REPO, &mut rt).unwrap();
    assert_eq!(repo.token, 3);
}

#[test]
fn sibling_singletons_are_independent() {
    let root = Module::new();
    let mut rt = Runtime::new();
    let sibling1 = root.fork(&mut rt).add(singleton(SERVICE, vec![]));
    let sibling2 = root.fork(&mut rt).add(singleton(SERVICE, vec![]));
    let a = sibling1.resolve(SERVICE, &mut rt).unwrap();
    let b = sibling2.resolve(SERVICE, &mut rt).unwrap();
    assert_ne!(a.token, b.token);
    let a_again = sibling1.resolve(SERVICE, &mut rt).unwrap();
    let b_again = sibling2.resolve(SERVICE, &mut rt).unwrap();
    assert_eq!(a.token, a_again.token);
    assert_eq!(b.token, b_again.token);
}

#[test]
fn sibling_cells_never_cross_types() {
    let root = Module::new();
    let mut rt = Runtime::new();
    let sibling1 = root.fork(&mut rt).add(singleton(SERVICE, vec![]));
    let sibling2 = root.fork(&mut rt).add(singleton(REPO, vec![]));
    let a = sibling1.resolve(SERVICE, &mut rt).unwrap();
    let b = sibling2.resolve(REPO, &mut rt).unwrap();
    assert_eq!(a.ty, SERVICE);
    assert_eq!(b.ty, REPO);
    assert_ne!(a.token, b.token);
}

