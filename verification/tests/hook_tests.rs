//! Hook discipline behavior: registration-order side effects, bail
//! short-circuiting, collection, and the driver's registry and diagnostics.

use bundler_core::diagnostics::{Diagnostic, DiagnosticKind, Severity};
use bundler_core::hooks::{run_bail, run_collect, run_collect_failing, run_sequential_all, BailAnswer, SeqAnswer};
use bundler_core::module_graph::ModuleType;
use bundler_core::plugin_driver::{BuilderRegistration, PluginDriver};

fn fatal(message: &str) -> Diagnostic {
    Diagnostic {
        severity: Severity::Error,
        kind: DiagnosticKind::PluginFatal,
        module: None,
        span_start: 0,
        span_end: 0,
        message: message.to_string(),
    }
}

/// Sequential-all: the order of side effects equals plugin registration
/// order.
#[test]
fn sequential_all_runs_in_registration_order() {
    let (invoked, result) =
        run_sequential_all(vec![SeqAnswer::Done, SeqAnswer::Done, SeqAnswer::Done]);
    assert_eq!(invoked, vec![0, 1, 2]);
    assert!(result.is_ok());
}

/// Sequential-all stops at the first fatal failure; later plugins never run.
#[test]
fn sequential_all_stops_at_failure() {
    let (invoked, result) = run_sequential_all(vec![
        SeqAnswer::Done,
        SeqAnswer::Fail(fatal("boom")),
        SeqAnswer::Done,
    ]);
    assert_eq!(invoked, vec![0, 1]);
    assert_eq!(result.unwrap_err().message, "boom");
}

/// Hook bail: two plugins register factorize; the first returns a module,
/// so the second plugin's factorize is not called.
#[test]
fn bail_short_circuits() {
    let driver = PluginDriver::new(
        vec!["first".to_string(), "second".to_string()],
        vec![Vec::new(), Vec::new()],
    );
    let (invoked, result) =
        driver.factorize(vec![BailAnswer::Give(7usize), BailAnswer::Give(9usize)]);
    assert_eq!(invoked, vec![0]);
    assert_eq!(result.unwrap(), Some(7));
}

/// Bail passes over declining plugins and stops at the first value.
#[test]
fn bail_skips_passes() {
    let (invoked, result) = run_bail::<u64>(vec![
        BailAnswer::Pass,
        BailAnswer::Pass,
        BailAnswer::Give(42),
        BailAnswer::Give(43),
    ]);
    assert_eq!(invoked, vec![0, 1, 2]);
    assert_eq!(result.unwrap(), Some(42));
}

/// Bail with every plugin declining yields nothing, and every plugin ran.
#[test]
fn bail_all_pass() {
    let (invoked, result) = run_bail::<u64>(vec![BailAnswer::Pass, BailAnswer::Pass]);
    assert_eq!(invoked, vec![0, 1]);
    assert_eq!(result.unwrap(), None);
}

/// A bail failure is fatal: no later plugin runs and the error surfaces.
#[test]
fn bail_failure_is_fatal() {
    let (invoked, result) = run_bail::<u64>(vec![
        BailAnswer::Pass,
        BailAnswer::Fail(fatal("fatal factorize")),
        BailAnswer::Give(1),
    ]);
    assert_eq!(invoked, vec![0, 1]);
    assert_eq!(result.unwrap_err().message, "fatal factorize");
}

/// Collect concatenates every plugin's contributions in registration order.
#[test]
fn collect_concatenates_in_order() {
    let r = run_collect(vec![vec![1, 2], vec![], vec![3]]);
    assert_eq!(r, vec![1, 2, 3]);
}

/// A failing collect hook aborts at the first error; later plugins are not
/// invoked, and every plugin before it ran even when it contributed nothing.
#[test]
fn collect_aborts_at_first_error() {
    let (invoked, result) = run_collect_failing::<u32>(vec![
        Ok(vec![1]),
        Ok(vec![]),
        Err(fatal("render failed")),
        Ok(vec![9]),
    ]);
    assert_eq!(invoked, vec![0, 1, 2]);
    assert_eq!(result.unwrap_err().message, "render failed");
    let (invoked2, result2) = run_collect_failing::<u32>(vec![Ok(vec![1]), Ok(vec![2, 3])]);
    assert_eq!(invoked2, vec![0, 1]);
    assert_eq!(result2.unwrap(), vec![1, 2, 3]);
}

/// The driver's builder registry: later registrations for the same module
/// type overwrite earlier ones; the plugins stay in registration order.
#[test]
fn driver_registry_last_registration_wins() {
    let reg = |t: ModuleType, name: &str| BuilderRegistration {
        module_type: t,
        builder_name: name.to_string(),
    };
    let driver = PluginDriver::new(
        vec!["javascript".to_string(), "wasm".to_string()],
        vec![
            vec![reg(ModuleType::Js, "js-one"), reg(ModuleType::Ts, "ts-one")],
            vec![reg(ModuleType::Js, "js-two")],
        ],
    );
    assert_eq!(driver.plugins, vec!["javascript", "wasm"]);
    assert_eq!(
        driver.get_parser_and_generator_builder(ModuleType::Js).map(|s| s.as_str()),
        Some("js-two"),
    );
    assert_eq!(
        driver.get_parser_and_generator_builder(ModuleType::Ts).map(|s| s.as_str()),
        Some("ts-one"),
    );
    assert!(driver.get_parser_and_generator_builder(ModuleType::Css).is_none());
}

/// take_diagnostic hands every collected diagnostic out and leaves the
/// collector empty.
#[test]
fn take_diagnostic_empties_the_collector() {
    let mut driver = PluginDriver::new(vec![], vec![]);
    driver.diagnostics.push(fatal("one"));
    driver.diagnostics.push(fatal("two"));
    let taken = driver.take_diagnostic();
    assert_eq!(taken.len(), 2);
    assert_eq!(taken[0].message, "one");
    assert_eq!(driver.diagnostics.len(), 0);
}
