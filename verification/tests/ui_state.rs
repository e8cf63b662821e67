use rustrecover::app_state::{App, Effect, ExportState, Message, Screen, StrategyKind};
use rustrecover::commands::StrategyArg;
use rustrecover::device::StorageDevice;
use rustrecover::locale::Locale;
use rustrecover::notification::{Notification, NotificationKind};

fn app_with_files(count: usize) -> App {
    let mut app = App::new(Locale::En);
    app.update(Message::SourcePathChanged("disk.img".to_string()));
    app.update(Message::ScanPressed);
    assert!(matches!(app.update(Message::ScanCompleted(Ok(count))), Effect::ClearPreview));
    app
}

#[test]
fn new_app_starts_on_the_scan_screen_with_nothing_selected() {
    let app = App::new(Locale::PtBr);
    assert_eq!(app.screen(), Screen::Scan);
    assert_eq!(app.source_path(), "");
    assert_eq!(app.file_count(), 0);
    assert_eq!(app.selected_file(), None);
    assert!(!app.scanning());
    assert_eq!(app.export_state(), ExportState::Idle);
    assert!(app.notifications().is_empty());
    assert!(!app.all_selected());
    assert_eq!(app.translations().locale, Locale::PtBr);
}

#[test]
fn scan_without_source_raises_an_error_toast() {
    let mut app = App::new(Locale::En);
    app.update(Message::SourcePathChanged("   ".to_string()));
    assert!(matches!(app.update(Message::ScanPressed), Effect::Nothing));
    assert!(!app.scanning());
    let shown = app.notifications();
    assert_eq!(shown.len(), 1);
    assert_eq!(shown[0].id, 0);
    assert_eq!(shown[0].kind, NotificationKind::Error);
    assert_eq!(shown[0].message, "Enter a source path before scanning.");
    assert_eq!(shown[0].ttl_ms, None);
}

#[test]
fn scan_with_source_starts_the_scan_job() {
    let mut app = App::new(Locale::En);
    app.update(Message::SourcePathChanged("/dev/sdb1".to_string()));
    app.update(Message::StrategyChanged(StrategyKind::Fat32));
    let effect = app.update(Message::ScanPressed);
    match effect {
        Effect::RunScan { source_path, strategy } => {
            assert_eq!(source_path, "/dev/sdb1");
            assert_eq!(strategy, StrategyKind::Fat32);
        },
        other => panic!("unexpected effect {:?}", other),
    }
    assert!(app.scanning());
}

#[test]
fn completed_scan_shows_the_results() {
    let app = app_with_files(3);
    assert_eq!(app.screen(), Screen::Results);
    assert_eq!(app.file_count(), 3);
    assert!(!app.scanning());
    assert_eq!(app.summary(), "Found 3 file(s) via carver.");
}

#[test]
fn failed_scan_keeps_the_screen_and_notifies() {
    let mut app = App::new(Locale::En);
    app.update(Message::SourcePathChanged("disk.img".to_string()));
    app.update(Message::ScanPressed);
    assert!(matches!(app.update(Message::ScanCompleted(Err("boom".to_string()))), Effect::Nothing));
    let shown = app.notifications();
    assert_eq!(shown.len(), 1);
    assert_eq!(shown[0].id, 0);
    assert_eq!(shown[0].kind, NotificationKind::Error);
    assert_eq!(shown[0].message, "boom");
    assert_eq!(app.screen(), Screen::Scan);
    assert!(!app.scanning());
}

#[test]
fn toggling_a_file_twice_restores_the_selection() {
    let mut app = app_with_files(4);
    app.update(Message::FileToggled(2));
    assert!(app.is_selected(2));
    app.update(Message::FileToggled(2));
    assert!(!app.is_selected(2));
}

#[test]
fn toggle_all_selects_everything_then_nothing() {
    let mut app = app_with_files(3);
    app.update(Message::FileToggled(1));
    app.update(Message::ToggleAll);
    assert!(app.all_selected());
    assert!(app.is_selected(0) && app.is_selected(1) && app.is_selected(2));
    app.update(Message::ToggleAll);
    assert!(!app.is_selected(0) && !app.is_selected(1) && !app.is_selected(2));
}

#[test]
fn export_goes_through_picking_and_exporting() {
    let mut app = app_with_files(5);
    app.update(Message::FileToggled(3));
    app.update(Message::FileToggled(1));
    assert!(app.export_enabled());
    assert!(matches!(app.update(Message::ExportPressed), Effect::PickFolder));
    assert_eq!(app.export_state(), ExportState::Picking);
    assert!(!app.export_enabled());
    match app.update(Message::FolderPicked(Some("out".to_string()))) {
        Effect::RunExport { selected, output_dir } => {
            assert_eq!(selected, vec![1, 3]);
            assert_eq!(output_dir, "out");
        },
        other => panic!("unexpected effect {:?}", other),
    }
    assert_eq!(app.export_state(), ExportState::Exporting);
    assert!(matches!(app.update(Message::ExportCompleted(2)), Effect::Nothing));
    let shown = app.notifications();
    assert_eq!(shown.len(), 1);
    assert_eq!(shown[0].kind, NotificationKind::Success);
    assert_eq!(shown[0].message, "✓ 2 file(s) exported successfully.");
    assert_eq!(app.export_state(), ExportState::Idle);
    assert!(!app.is_selected(1) && !app.is_selected(3));
}

#[test]
fn cancelled_folder_pick_returns_to_idle_with_info_toast() {
    let mut app = app_with_files(1);
    app.update(Message::ExportPressed);
    assert!(matches!(app.update(Message::FolderPicked(None)), Effect::Nothing));
    assert_eq!(app.notifications().len(), 1);
    assert_eq!(app.notifications()[0].kind, NotificationKind::Info);
    assert_eq!(app.export_state(), ExportState::Idle);
}

#[test]
fn notification_ids_increase() {
    let mut app = App::new(Locale::En);
    for _ in 0..3 {
        app.update(Message::ScanPressed);
    }
    let ids: Vec<u64> = app.notifications().iter().map(|n| n.id).collect();
    assert_eq!(ids, vec![0, 1, 2]);
}

#[test]
fn dismiss_removes_only_that_notification() {
    let mut app = App::new(Locale::En);
    app.push_notification(Notification::error(0, "a".to_string()));
    app.push_notification(Notification::error(1, "b".to_string()));
    app.push_notification(Notification::error(2, "c".to_string()));
    app.update(Message::DismissNotification(1));
    let ids: Vec<u64> = app.notifications().iter().map(|n| n.id).collect();
    assert_eq!(ids, vec![0, 2]);
}

#[test]
fn log_tick_keeps_notifications_that_never_expire() {
    let mut app = App::new(Locale::En);
    app.push_notification(Notification::error(0, "stays".to_string()));
    app.push_notification(Notification::success(1, "fresh".to_string()));
    assert!(matches!(app.update(Message::LogDrainTick), Effect::DrainLogs));
    assert_eq!(app.notifications().len(), 2);
}

#[test]
fn devices_detected_replace_the_list() {
    let mut app = App::new(Locale::En);
    assert!(matches!(app.update(Message::DetectDevicesPressed), Effect::DetectDevices));
    assert!(app.detecting_devices());
    let dev = StorageDevice {
        path: "/dev/sda".to_string(),
        name: "Disk".to_string(),
        size_bytes: 512,
        removable: false,
    };
    app.update(Message::DevicesDetected(Ok(vec![dev])));
    assert!(!app.detecting_devices());
    assert_eq!(app.devices().len(), 1);
    assert_eq!(app.devices()[0].path, "/dev/sda");
    app.update(Message::DeviceSelected("/dev/sda".to_string()));
    assert_eq!(app.source_path(), "/dev/sda");
    assert_eq!(app.screen(), Screen::Scan);
}

#[test]
fn sidebar_and_console_toggle() {
    let mut app = App::new(Locale::En);
    app.update(Message::ToggleSidebar);
    app.update(Message::ToggleConsole);
    assert!(app.sidebar_expanded());
    assert!(app.console_open());
    app.update(Message::ToggleSidebar);
    assert!(!app.sidebar_expanded());
}

#[test]
fn file_selection_asks_for_a_preview() {
    let mut app = app_with_files(2);
    assert!(matches!(app.update(Message::FileSelected(1)), Effect::ShowPreview(1)));
    assert_eq!(app.selected_file(), Some(1));
}

#[test]
fn strategy_argument_converts_to_kind() {
    assert_eq!(StrategyKind::from(StrategyArg::Carver), StrategyKind::Carver);
    assert_eq!(StrategyKind::from(StrategyArg::Fat32), StrategyKind::Fat32);
}

#[test]
fn failed_export_and_device_listing_show_their_errors() {
    let mut app = App::new(Locale::PtBr);
    app.update(Message::DevicesDetected(Err("no sysfs".to_string())));
    app.update(Message::ExportFailed("disk full".to_string()));
    let shown = app.notifications();
    assert_eq!(shown.len(), 2);
    assert_eq!((shown[0].id, shown[0].kind), (0, NotificationKind::Error));
    assert_eq!(shown[0].message, "no sysfs");
    assert_eq!((shown[1].id, shown[1].kind), (1, NotificationKind::Error));
    assert_eq!(shown[1].message, "✗ disk full");
}

#[test]
fn toggle_label_and_results_follow_the_selection() {
    let mut app = App::new(Locale::En);
    assert!(!app.results_enabled());
    assert_eq!(app.toggle_all_label(), "Select All");
    app.update(Message::SourcePathChanged("disk.img".to_string()));
    app.update(Message::ScanPressed);
    app.update(Message::ScanCompleted(Ok(2)));
    assert!(app.results_enabled());
    app.update(Message::ToggleAll);
    assert_eq!(app.toggle_all_label(), "Deselect All");
    app.update(Message::LanguageChanged(Locale::PtBr));
    assert_eq!(app.toggle_all_label(), "Desmarcar Todos");
}

#[test]
fn selected_count_and_export_label_follow_the_selection() {
    let mut app = app_with_files(5);
    assert_eq!(app.selected_count(), 0);
    assert_eq!(app.export_label(), "Export Selected (0)");
    app.update(Message::FileToggled(1));
    app.update(Message::FileToggled(3));
    assert_eq!(app.selected_count(), 2);
    assert_eq!(app.export_label(), "Export Selected (2)");
    app.update(Message::ToggleAll);
    assert_eq!(app.selected_count(), 5);
    let mut pt = App::new(Locale::PtBr);
    pt.update(Message::SourcePathChanged("disk.img".to_string()));
    pt.update(Message::ScanPressed);
    pt.update(Message::ScanCompleted(Ok(2)));
    pt.update(Message::FileToggled(0));
    assert_eq!(pt.export_label(), "Exportar Selecionados (1)");
}
