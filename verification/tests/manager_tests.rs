use navgraph::manager::{ResourceState, ResourceWaitContext};

#[test]
fn resource_wait_context_is_all_loaded() {
    assert!(ResourceWaitContext::default().is_all_loaded());

    let cx = ResourceWaitContext {
        resources: vec![ResourceState::Pending, ResourceState::LoadError],
    };
    assert!(!cx.is_all_loaded());
}

#[test]
fn resource_wait_context_all_done() {
    let cx = ResourceWaitContext {
        resources: vec![ResourceState::Loaded, ResourceState::LoadError],
    };
    assert!(cx.is_all_loaded());

    let cx = ResourceWaitContext {
        resources: vec![ResourceState::Loaded, ResourceState::Pending],
    };
    assert!(!cx.is_all_loaded());
}
