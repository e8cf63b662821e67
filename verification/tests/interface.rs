use std::collections::VecDeque;

use rustrecover::locale::{Locale, LocaleOption, Strings};
use rustrecover::log_capture::{capture_enabled, push_capped, LogLevel, MAX_ENTRIES};
use rustrecover::notification::{Notification, NotificationKind};

#[test]
fn locale_labels_follow_the_current_language() {
    let en = Strings::en();
    assert_eq!(en.locale_label(Locale::PtBr), "Portuguese (Brazil)");
    assert_eq!(en.locale_label(Locale::En), "English");
    let pt = Strings::pt_br();
    assert_eq!(pt.locale_label(Locale::PtBr), "Português (Brasil)");
    assert_eq!(pt.locale_label(Locale::En), "Inglês");
}

#[test]
fn locale_options_list_every_locale() {
    let options = Strings::en().locale_options();
    assert_eq!(options.len(), 2);
    assert_eq!(options[0].locale, Locale::PtBr);
    assert_eq!(options[0].label, "Portuguese (Brazil)");
    assert_eq!(options[1].locale, Locale::En);
}

#[test]
fn locale_options_compare_by_locale_only() {
    let a = LocaleOption { locale: Locale::En, label: "English" };
    let b = LocaleOption { locale: Locale::En, label: "Inglês" };
    let c = LocaleOption { locale: Locale::PtBr, label: "English" };
    assert!(a == b);
    assert!(a != c);
}

#[test]
fn formatted_messages_in_both_languages() {
    let en = Strings::en();
    let pt = Strings::pt_br();
    assert_eq!(en.files_found(3, "carver"), "Found 3 file(s) via carver.");
    assert_eq!(pt.files_found(3, "fat32"), "Foram encontrados 3 arquivo(s) via fat32.");
    assert_eq!(en.export_selected(0), "Export Selected (0)");
    assert_eq!(pt.export_selected(12), "Exportar Selecionados (12)");
    assert_eq!(en.export_success(5), "✓ 5 file(s) exported successfully.");
    assert_eq!(pt.export_success(1), "✓ 1 arquivo(s) exportado(s) com sucesso.");
    assert_eq!(en.export_error("disk full"), "✗ disk full");
}

#[test]
fn locale_detection_from_language_tag() {
    assert_eq!(Locale::from_language_tag("pt_BR.UTF-8"), Locale::PtBr);
    assert_eq!(Locale::from_language_tag("PT"), Locale::PtBr);
    assert_eq!(Locale::from_language_tag("en_US.UTF-8"), Locale::En);
    assert_eq!(Locale::from_language_tag(""), Locale::En);
    assert_eq!(Strings::for_locale(Locale::PtBr).nav_scan, "Escanear");
}

#[test]
fn notifications_have_their_kind_and_lifetime() {
    let s = Notification::success(1, "ok".to_string());
    assert_eq!(s.kind, NotificationKind::Success);
    assert_eq!(s.ttl_ms, Some(4000));
    assert!(!s.is_expired());
    assert!(!s.is_expired_after(3999));
    assert!(s.is_expired_after(4000));
    let e = Notification::error(2, "bad".to_string());
    assert_eq!(e.ttl_ms, None);
    assert!(!e.is_expired_after(u128::MAX));
    assert!(!e.is_expired());
    let i = Notification::info(3, "note".to_string());
    assert_eq!(i.kind, NotificationKind::Info);
    assert_eq!(i.message, "note");
    assert_eq!(i.id, 3);
}

#[test]
fn console_captures_only_own_targets_at_info_or_above() {
    assert!(capture_enabled(LogLevel::Info, "file_carver::scanner"));
    assert!(capture_enabled(LogLevel::Error, "ui"));
    assert!(capture_enabled(LogLevel::Warn, "device_detector"));
    assert!(!capture_enabled(LogLevel::Debug, "file_carver"));
    assert!(!capture_enabled(LogLevel::Info, "iced_wgpu"));
}

#[test]
fn console_buffer_drops_the_oldest_entry_when_full() {
    let mut buf: VecDeque<usize> = VecDeque::new();
    for i in 0..MAX_ENTRIES + 3 {
        push_capped(&mut buf, i);
    }
    assert_eq!(buf.len(), MAX_ENTRIES);
    assert_eq!(buf.front(), Some(&3));
    assert_eq!(buf.back(), Some(&(MAX_ENTRIES + 2)));
}

#[test]
fn locale_detection_takes_the_first_variable_that_is_set() {
    assert_eq!(Locale::detect_from(Some("pt_BR.UTF-8"), Some("en_US"), Some("en")), Locale::PtBr);
    assert_eq!(Locale::detect_from(Some("en_US.UTF-8"), Some("pt_BR"), Some("pt")), Locale::En);
    assert_eq!(Locale::detect_from(None, Some("pt_PT"), Some("en")), Locale::PtBr);
    assert_eq!(Locale::detect_from(None, None, Some("PT")), Locale::PtBr);
    assert_eq!(Locale::detect_from(None, None, None), Locale::En);
    // An empty LANG still counts as set, so the others are not read.
    assert_eq!(Locale::detect_from(Some(""), Some("pt_BR"), None), Locale::En);
}

#[test]
fn strings_for_a_locale_are_that_locales_strings() {
    let pt = Strings::for_locale(Locale::PtBr);
    assert_eq!(pt.locale, Locale::PtBr);
    assert_eq!(pt.app_subtitle, "Ferramenta de Recuperação de Arquivos");
    assert_eq!(pt.console_no_logs, "Nenhum log registrado ainda.");
    let en = Strings::for_locale(Locale::En);
    assert_eq!(en.locale, Locale::En);
    assert_eq!(en.app_subtitle, "File Recovery Tool");
    assert_eq!(en.strategy_fat32, "FAT32 — filesystem-aware (preserves filenames)");
}
