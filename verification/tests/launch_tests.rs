use luna::launch::ApplicationLaunchContext;
use luna::runtime::RuntimeError;

fn context(base: &str, staging: &str) -> ApplicationLaunchContext {
    ApplicationLaunchContext::new(base.to_string(), staging.to_string())
}

#[test]
fn launch_context_accepts_distinct_absolute_roots() {
    let context = context("/luna/system", "/luna/data/runtime");
    assert!(context.validate().is_ok());
}

#[test]
fn launch_context_rejects_relative_roots() {
    let context = context("system", "/luna/data/runtime");
    assert!(matches!(context.validate(), Err(RuntimeError::Staging(_))));
}

#[test]
fn launch_context_rejects_navigation_components() {
    let context1 = context("/luna/./system", "/luna/data/runtime");
    assert!(matches!(context1.validate(), Err(RuntimeError::Staging(_))));

    let context2 = context("/luna/system", "/luna/data/../runtime");
    assert!(matches!(context2.validate(), Err(RuntimeError::Staging(_))));
}

#[test]
fn launch_context_rejects_staging_inside_base_root_boundary() {
    let context = context("/luna/system", "/luna/system/runtime");
    assert!(matches!(context.validate(), Err(RuntimeError::Staging(_))));
}

#[test]
fn launch_context_rejects_staging_equal_to_base_root() {
    let context = context("/luna/system", "/luna/system");
    assert!(matches!(context.validate(), Err(RuntimeError::Staging(_))));
}

#[test]
fn launch_context_rejects_host_root_as_base_root() {
    let context = context("/", "/luna/data/runtime");
    assert!(matches!(context.validate(), Err(RuntimeError::Staging(_))));
}

#[test]
fn launch_context_rejects_host_root_as_staging_parent() {
    let context = context("/luna/system", "/");
    assert!(matches!(context.validate(), Err(RuntimeError::Staging(_))));
}

#[test]
fn sibling_prefix_text_is_not_inside_the_base_root() {
    let c = context("/luna/system", "/luna/system2/runtime");
    assert!(c.validate().is_ok());
    assert_eq!(c.base_root(), "/luna/system");
    assert_eq!(c.staging_parent(), "/luna/system2/runtime");
}
