use luna::attempt::BootAttemptMarker;
use luna::boot_plan::{
    boot_candidates, boot_state_for, effective_selection, entry_label, menu_entries, menu_step,
    preparation_failure_is_fatal, selection_for, verbose_cmdline, BootMenuAction, BootPlan, BootSelection,
    MenuEntry, MenuKey, MenuStep,
};
use luna::boot_target::{same_target, BootError, BootTarget};
use luna::catalog::BootCatalog;
use luna::discovery::{BootStateConfig, BootTargetRef};
use luna::handoff::BootMode;

fn target(version: &str) -> BootTarget {
    BootTarget::new(
        format!("Luna {version}"),
        "luna".to_string(),
        version.to_string(),
        format!("/images/luna-{version}.squashfs"),
        format!("/images/luna-{version}.toml"),
        "/cores/luna-1.0.init".to_string(),
        "/kernels/6.1/bzImage".to_string(),
        "6.1".to_string(),
    )
    .with_cmdline("quiet loglevel=3  root=/dev/ram0".to_string())
}

fn catalog() -> BootCatalog {
    let mut state = BootStateConfig::empty();
    state.fallback = Some(BootTargetRef { image: "0.1.0".to_string(), init: "1.0".to_string(), kernel: "6.1".to_string() });
    BootCatalog::assemble(
        vec![target("0.3.0"), target("0.2.0"), target("0.1.0")],
        vec![target("9.0").recovery()],
        vec![target("8.0").factory()],
        state,
    )
    .unwrap()
}

#[test]
fn menu_lists_targets_between_continue_and_tools() {
    let entries = menu_entries(2);
    assert_eq!(
        entries,
        vec![
            MenuEntry::Continue,
            MenuEntry::SystemImage(0),
            MenuEntry::SystemImage(1),
            MenuEntry::Recovery,
            MenuEntry::Factory,
            MenuEntry::ExternalBoot,
            MenuEntry::VerboseBoot
        ]
    );
    let targets = vec![target("0.3.0")];
    assert_eq!(entry_label(MenuEntry::SystemImage(0), &targets, 0), "System Image: Luna 0.3.0 [0.3.0] [Current]");
    assert_eq!(entry_label(MenuEntry::SystemImage(5), &targets, 0), "System Image: <invalid target>");
    assert_eq!(entry_label(MenuEntry::ExternalBoot, &targets, 0), "Boot from USB / External Device");
    assert_eq!(
        selection_for(MenuEntry::SystemImage(1), 0),
        BootSelection { action: BootMenuAction::SystemImage, target_index: 1 }
    );
}

#[test]
fn menu_keys_move_and_choose() {
    let entries = menu_entries(1);
    assert_eq!(menu_step(&entries, 0, MenuKey::Up, 0), MenuStep::Highlight(0));
    assert_eq!(menu_step(&entries, 0, MenuKey::Down, 0), MenuStep::Highlight(1));
    assert_eq!(menu_step(&entries, 5, MenuKey::Down, 0), MenuStep::Highlight(5));
    assert_eq!(
        menu_step(&entries, 2, MenuKey::Enter, 0),
        MenuStep::Choose(BootSelection { action: BootMenuAction::Recovery, target_index: 0 })
    );
    assert_eq!(
        menu_step(&entries, 3, MenuKey::Escape, 0),
        MenuStep::Choose(BootSelection { action: BootMenuAction::Continue, target_index: 0 })
    );
}

#[test]
fn verbose_boot_rewrites_the_command_line() {
    assert_eq!(
        verbose_cmdline("quiet loglevel=3  root=/dev/ram0"),
        "root=/dev/ram0 console=tty0 console=ttyS0,115200n8 loglevel=7 ignore_loglevel initcall_debug"
    );
    assert_eq!(
        verbose_cmdline(""),
        " console=tty0 console=ttyS0,115200n8 loglevel=7 ignore_loglevel initcall_debug"
    );
}

#[test]
fn missing_data_partition_forces_recovery() {
    let s = BootSelection { action: BootMenuAction::SystemImage, target_index: 2 };
    assert_eq!(effective_selection(s, false, 0), BootSelection { action: BootMenuAction::Recovery, target_index: 0 });
    assert_eq!(effective_selection(s, true, 0), s);
    let f = BootSelection { action: BootMenuAction::Factory, target_index: 2 };
    assert_eq!(effective_selection(f, false, 0), f);
}

#[test]
fn default_boot_falls_back_to_the_recorded_target_then_older_ones() {
    let c = catalog();
    let s = BootSelection { action: BootMenuAction::Continue, target_index: 0 };
    let plan = BootPlan::decide(&c, s, true).ok().unwrap();
    assert_eq!(plan.mode, BootMode::Normal);
    let order: Vec<&str> = plan.candidates.iter().map(|t| t.system_version.as_str()).collect();
    assert_eq!(order, vec!["0.3.0", "0.1.0", "0.2.0", "0.1.0"]);
}

#[test]
fn recovery_falls_back_to_factory_only() {
    let c = catalog();
    let s = BootSelection { action: BootMenuAction::Continue, target_index: 0 };
    let plan = BootPlan::decide(&c, s, false).ok().unwrap();
    assert_eq!(plan.mode, BootMode::Recovery);
    assert!(plan.selected.is_recovery);
    let order: Vec<&str> = plan.candidates.iter().map(|t| t.system_version.as_str()).collect();
    assert_eq!(order, vec!["9.0", "8.0"]);
    assert!(same_target(&plan.candidates[0], &plan.selected));
}

#[test]
fn verbose_and_explicit_images_try_older_targets() {
    let c = catalog();
    let s = BootSelection { action: BootMenuAction::VerboseBoot, target_index: 1 };
    let plan = BootPlan::decide(&c, s, true).ok().unwrap();
    assert_eq!(plan.mode, BootMode::Detailed);
    assert!(plan.selected.kernel_cmdline.ends_with("initcall_debug"));
    assert!(!plan.selected.kernel_cmdline.contains("quiet"));
    let order: Vec<&str> = plan.candidates.iter().map(|t| t.system_version.as_str()).collect();
    assert_eq!(order, vec!["0.2.0", "0.1.0"]);
    let bad = BootSelection { action: BootMenuAction::SystemImage, target_index: 9 };
    assert!(matches!(BootPlan::decide(&c, bad, true), Err(BootError::TargetNotFound)));
    let only = BootCatalog::assemble(vec![target("1.0")], vec![], vec![], BootStateConfig::empty()).unwrap();
    let rec = BootSelection { action: BootMenuAction::Recovery, target_index: 0 };
    assert!(matches!(BootPlan::decide(&only, rec, true), Err(BootError::RecoveryUnavailable)));
    let fac = BootSelection { action: BootMenuAction::Factory, target_index: 0 };
    assert!(matches!(BootPlan::decide(&only, fac, true), Err(BootError::Unsupported(_))));
}

#[test]
fn candidates_start_with_the_selected_target() {
    let c = catalog();
    let s = BootSelection { action: BootMenuAction::SystemImage, target_index: 0 };
    let list = boot_candidates(&c, s, &c.targets[2]);
    assert_eq!(list[0].system_version, "0.1.0");
    assert_eq!(list.len(), 3);
}

#[test]
fn boot_state_prefers_the_unconfirmed_marker() {
    let mut config = BootStateConfig::empty();
    config.attempt_id = 5;
    config.fallback_depth = 1;
    config.failure_code = 2;
    let s = boot_state_for(Some(BootAttemptMarker { attempt_id: 9 }), &config);
    assert!(s.previous_attempt_failed);
    assert_eq!(s.previous_attempt_id, 9);
    let s = boot_state_for(None, &config);
    assert!(!s.previous_attempt_failed);
    assert_eq!(s.previous_attempt_id, 5);
    assert_eq!(s.fallback_depth, 1);
    assert_eq!(s.failure_code, 2);
    assert!(!preparation_failure_is_fatal(BootMode::Normal));
    assert!(preparation_failure_is_fatal(BootMode::Recovery));
}
