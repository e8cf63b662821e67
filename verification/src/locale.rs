//! User-facing strings of the desktop interface, in Brazilian Portuguese and English.
use vstd::prelude::*;

use crate::text::{decimal, push_decimal, push_str};

verus! {

/// Supported locales for the interface.
#[derive(Debug, Clone, Copy, PartialEq, Eq, Structural)]
pub enum Locale {
    PtBr,
    En,
}

/// The locale a language setting `tag` names: Portuguese when it starts
/// with `pt` (in any letter case), English otherwise.
pub open spec fn tag_locale(tag: Seq<char>) -> Locale {
    if tag.len() >= 2 && (tag[0] == 'p' || tag[0] == 'P') && (tag[1] == 't' || tag[1] == 'T') {
        Locale::PtBr
    } else {
        Locale::En
    }
}

/// The language setting that decides the locale: `LANG` when it is set,
/// else `LC_ALL`, else `LANGUAGE`, else nothing. A variable that is set to
/// the empty text counts as set.
pub open spec fn chosen_tag(lang: Option<&str>, lc_all: Option<&str>, language: Option<&str>) -> Seq<char> {
    match lang {
        Some(t) => t@,
        None => match lc_all {
            Some(t) => t@,
            None => match language {
                Some(t) => t@,
                None => Seq::empty(),
            },
        },
    }
}

impl Locale {
    /// Every supported locale, in the order the language picker lists them.
    pub fn all() -> (res: Vec<Locale>)
        ensures
            res@ == seq![Locale::PtBr, Locale::En],
    {
        let v = vec![Locale::PtBr, Locale::En];
        assert(v@ =~= seq![Locale::PtBr, Locale::En]);
        v
    }

    /// The locale of a system whose language setting is `lang`: Portuguese
    /// when it starts with `pt` (in any letter case), English otherwise.
    pub fn from_language_tag(lang: &str) -> (res: Locale)
        ensures
            res == tag_locale(lang@),
    {
        let n = lang.unicode_len();
        if n >= 2 {
            let a = lang.get_char(0);
            let b = lang.get_char(1);
            if (a == 'p' || a == 'P') && (b == 't' || b == 'T') {
                return Locale::PtBr;
            }
        }
        Locale::En
    }

    /// The locale of a system whose `LANG`, `LC_ALL` and `LANGUAGE`
    /// variables are `lang`, `lc_all` and `language` (`None` where one is not
    /// set): the first that is set decides, and English is the fallback.
    pub fn detect_from(lang: Option<&str>, lc_all: Option<&str>, language: Option<&str>) -> (res: Locale)
        ensures
            res == tag_locale(chosen_tag(lang, lc_all, language)),
    {
        match lang {
            Some(t) => Self::from_language_tag(t),
            None => match lc_all {
                Some(t) => Self::from_language_tag(t),
                None => match language {
                    Some(t) => Self::from_language_tag(t),
                    None => Locale::En,
                },
            },
        }
    }
}

/// A locale with its display label in the current language, for the picker.
/// Two options are equal when their locales are, whatever their labels.
#[derive(Debug, Clone)]
pub struct LocaleOption {
    pub locale: Locale,
    pub label: &'static str,
}

impl PartialEq for LocaleOption {
    fn eq(&self, other: &Self) -> (res: bool) {
        self.locale == other.locale
    }
}

impl vstd::std_specs::cmp::PartialEqSpecImpl for LocaleOption {
    open spec fn obeys_eq_spec() -> bool {
        true
    }

    open spec fn eq_spec(&self, other: &LocaleOption) -> bool {
        self.locale == other.locale
    }
}

/// The notice shown when a scan is asked for without a source.
pub open spec fn no_source_text(locale: Locale) -> Seq<char> {
    match locale {
        Locale::PtBr => "Informe o caminho da fonte antes de escanear."@,
        Locale::En => "Enter a source path before scanning."@,
    }
}

/// The label of the button that selects every file.
pub open spec fn select_all_text(locale: Locale) -> Seq<char> {
    match locale {
        Locale::PtBr => "Selecionar Todos"@,
        Locale::En => "Select All"@,
    }
}

/// The label of the button that clears the selection.
pub open spec fn deselect_all_text(locale: Locale) -> Seq<char> {
    match locale {
        Locale::PtBr => "Desmarcar Todos"@,
        Locale::En => "Deselect All"@,
    }
}

/// The notice shown after `count` files were exported.
pub open spec fn export_success_text(locale: Locale, count: nat) -> Seq<char> {
    match locale {
        Locale::PtBr => "✓ "@ + decimal(count) + " arquivo(s) exportado(s) com sucesso."@,
        Locale::En => "✓ "@ + decimal(count) + " file(s) exported successfully."@,
    }
}

/// All user-facing strings for a single locale.
pub struct Strings {
    /// The language these strings are written in.
    pub locale: Locale,
    pub app_subtitle: &'static str,
    pub nav_devices: &'static str,
    pub nav_scan: &'static str,
    pub nav_recover: &'static str,
    pub detect_btn: &'static str,
    pub detecting: &'static str,
    pub devices_hint: &'static str,
    pub source_label: &'static str,
    pub source_placeholder: &'static str,
    pub strategy_label: &'static str,
    pub strategy_carver: &'static str,
    pub strategy_fat32: &'static str,
    pub scan_btn: &'static str,
    pub scanning_btn: &'static str,
    pub scanning_status: &'static str,
    pub scan_error_no_source: &'static str,
    pub deselect_all: &'static str,
    pub select_all: &'static str,
    pub export_picking: &'static str,
    pub exporting: &'static str,
    pub no_files_found: &'static str,
    pub select_to_preview: &'static str,
    pub export_folder_title: &'static str,
    pub locale_pt_br_label: &'static str,
    pub locale_en_label: &'static str,
    pub console_title: &'static str,
    pub console_toggle_open: &'static str,
    pub console_toggle_close: &'static str,
    pub console_no_logs: &'static str,
}

/// Whether `s` holds every Brazilian Portuguese string.
pub open spec fn portuguese(s: &Strings) -> bool {
    &&& s.language() == Locale::PtBr
    &&& s.app_subtitle@ == "Ferramenta de Recuperação de Arquivos"@
    &&& s.nav_devices@ == "Dispositivos"@
    &&& s.nav_scan@ == "Escanear"@
    &&& s.nav_recover@ == "Recuperar"@
    &&& s.detect_btn@ == "Detectar Dispositivos"@
    &&& s.detecting@ == "Detectando dispositivos…"@
    &&& s.devices_hint@ == "Clique em 'Detectar Dispositivos' para listar os dispositivos disponíveis."@
    &&& s.source_label@ == "Caminho da fonte:"@
    &&& s.source_placeholder@ == "/dev/sdb1 ou /caminho/para/imagem.img"@
    &&& s.strategy_label@ == "Estratégia de recuperação:"@
    &&& s.strategy_carver@ == "Carver — baseado em assinatura (qualquer dispositivo)"@
    &&& s.strategy_fat32@ == "FAT32 — reconhece o sistema de arquivos (preserva nomes de arquivos)"@
    &&& s.scan_btn@ == "Escanear"@
    &&& s.scanning_btn@ == "Escaneando…"@
    &&& s.scanning_status@ == "Escaneando… isso pode levar um tempo."@
    &&& s.scan_error_no_source@ == "Informe o caminho da fonte antes de escanear."@
    &&& s.deselect_all@ == "Desmarcar Todos"@
    &&& s.select_all@ == "Selecionar Todos"@
    &&& s.export_picking@ == "Abrindo seletor de pasta…"@
    &&& s.exporting@ == "Exportando…"@
    &&& s.no_files_found@ == "Nenhum arquivo recuperável foi encontrado."@
    &&& s.select_to_preview@ == "Selecione um arquivo para visualizar"@
    &&& s.export_folder_title@ == "Selecionar pasta de saída para os arquivos recuperados"@
    &&& s.locale_pt_br_label@ == "Português (Brasil)"@
    &&& s.locale_en_label@ == "Inglês"@
    &&& s.console_title@ == "Console"@
    &&& s.console_toggle_open@ == "Abrir Console"@
    &&& s.console_toggle_close@ == "Fechar Console"@
    &&& s.console_no_logs@ == "Nenhum log registrado ainda."@
}

/// Whether `s` holds every English string.
pub open spec fn english(s: &Strings) -> bool {
    &&& s.language() == Locale::En
    &&& s.app_subtitle@ == "File Recovery Tool"@
    &&& s.nav_devices@ == "Devices"@
    &&& s.nav_scan@ == "Scan"@
    &&& s.nav_recover@ == "Recover"@
    &&& s.detect_btn@ == "Detect Devices"@
    &&& s.detecting@ == "Detecting devices…"@
    &&& s.devices_hint@ == "Click 'Detect Devices' to list available devices."@
    &&& s.source_label@ == "Source path:"@
    &&& s.source_placeholder@ == "/dev/sdb1  or  /path/to/image.img"@
    &&& s.strategy_label@ == "Recovery strategy:"@
    &&& s.strategy_carver@ == "Carver — signature-based (any device)"@
    &&& s.strategy_fat32@ == "FAT32 — filesystem-aware (preserves filenames)"@
    &&& s.scan_btn@ == "Scan"@
    &&& s.scanning_btn@ == "Scanning…"@
    &&& s.scanning_status@ == "Scanning… this may take a while."@
    &&& s.scan_error_no_source@ == "Enter a source path before scanning."@
    &&& s.deselect_all@ == "Deselect All"@
    &&& s.select_all@ == "Select All"@
    &&& s.export_picking@ == "Opening folder picker…"@
    &&& s.exporting@ == "Exporting…"@
    &&& s.no_files_found@ == "No recoverable files were found."@
    &&& s.select_to_preview@ == "Select a file to preview"@
    &&& s.export_folder_title@ == "Select output folder for recovered files"@
    &&& s.locale_pt_br_label@ == "Portuguese (Brazil)"@
    &&& s.locale_en_label@ == "English"@
    &&& s.console_title@ == "Console"@
    &&& s.console_toggle_open@ == "Open Console"@
    &&& s.console_toggle_close@ == "Close Console"@
    &&& s.console_no_logs@ == "No logs recorded yet."@
}

/// Whether `s` holds every string of `locale`.
pub open spec fn strings_of(s: &Strings, locale: Locale) -> bool {
    match locale {
        Locale::PtBr => portuguese(s),
        Locale::En => english(s),
    }
}

impl Strings {
    /// The language these strings are written in.
    pub open spec fn language(&self) -> Locale {
        self.locale
    }

    /// The Brazilian Portuguese strings.
    pub fn pt_br() -> (res: Strings)
        ensures
            portuguese(&res),
    {
        Strings {
            locale: Locale::PtBr,
            app_subtitle: "Ferramenta de Recuperação de Arquivos",
            nav_devices: "Dispositivos",
            nav_scan: "Escanear",
            nav_recover: "Recuperar",
            detect_btn: "Detectar Dispositivos",
            detecting: "Detectando dispositivos…",
            devices_hint: "Clique em 'Detectar Dispositivos' para listar os dispositivos disponíveis.",
            source_label: "Caminho da fonte:",
            source_placeholder: "/dev/sdb1 ou /caminho/para/imagem.img",
            strategy_label: "Estratégia de recuperação:",
            strategy_carver: "Carver — baseado em assinatura (qualquer dispositivo)",
            strategy_fat32: "FAT32 — reconhece o sistema de arquivos (preserva nomes de arquivos)",
            scan_btn: "Escanear",
            scanning_btn: "Escaneando…",
            scanning_status: "Escaneando… isso pode levar um tempo.",
            scan_error_no_source: "Informe o caminho da fonte antes de escanear.",
            deselect_all: "Desmarcar Todos",
            select_all: "Selecionar Todos",
            export_picking: "Abrindo seletor de pasta…",
            exporting: "Exportando…",
            no_files_found: "Nenhum arquivo recuperável foi encontrado.",
            select_to_preview: "Selecione um arquivo para visualizar",
            export_folder_title: "Selecionar pasta de saída para os arquivos recuperados",
            locale_pt_br_label: "Português (Brasil)",
            locale_en_label: "Inglês",
            console_title: "Console",
            console_toggle_open: "Abrir Console",
            console_toggle_close: "Fechar Console",
            console_no_logs: "Nenhum log registrado ainda.",
        }
    }

    /// The English strings.
    pub fn en() -> (res: Strings)
        ensures
            english(&res),
    {
        Strings {
            locale: Locale::En,
            app_subtitle: "File Recovery Tool",
            nav_devices: "Devices",
            nav_scan: "Scan",
            nav_recover: "Recover",
            detect_btn: "Detect Devices",
            detecting: "Detecting devices…",
            devices_hint: "Click 'Detect Devices' to list available devices.",
            source_label: "Source path:",
            source_placeholder: "/dev/sdb1  or  /path/to/image.img",
            strategy_label: "Recovery strategy:",
            strategy_carver: "Carver — signature-based (any device)",
            strategy_fat32: "FAT32 — filesystem-aware (preserves filenames)",
            scan_btn: "Scan",
            scanning_btn: "Scanning…",
            scanning_status: "Scanning… this may take a while.",
            scan_error_no_source: "Enter a source path before scanning.",
            deselect_all: "Deselect All",
            select_all: "Select All",
            export_picking: "Opening folder picker…",
            exporting: "Exporting…",
            no_files_found: "No recoverable files were found.",
            select_to_preview: "Select a file to preview",
            export_folder_title: "Select output folder for recovered files",
            locale_pt_br_label: "Portuguese (Brazil)",
            locale_en_label: "English",
            console_title: "Console",
            console_toggle_open: "Open Console",
            console_toggle_close: "Close Console",
            console_no_logs: "No logs recorded yet.",
        }
    }

    /// The strings of `locale`.
    pub fn for_locale(locale: Locale) -> (res: Strings)
        ensures
            strings_of(&res, locale),
            res.language() == locale,
            res.scan_error_no_source@ == no_source_text(locale),
            res.select_all@ == select_all_text(locale),
            res.deselect_all@ == deselect_all_text(locale),
    {
        match locale {
            Locale::PtBr => Self::pt_br(),
            Locale::En => Self::en(),
        }
    }

    /// The translated display label for `locale` in the current language.
    pub fn locale_label(&self, locale: Locale) -> (res: &'static str)
        ensures
            res == (match locale {
                Locale::PtBr => self.locale_pt_br_label,
                Locale::En => self.locale_en_label,
            }),
    {
        match locale {
            Locale::PtBr => self.locale_pt_br_label,
            Locale::En => self.locale_en_label,
        }
    }

    /// Every locale option, labelled in the current language.
    pub fn locale_options(&self) -> (res: Vec<LocaleOption>)
        ensures
            res@.len() == 2,
            res@[0].locale == Locale::PtBr && res@[0].label == self.locale_pt_br_label,
            res@[1].locale == Locale::En && res@[1].label == self.locale_en_label,
    {
        let all = Locale::all();
        let mut res: Vec<LocaleOption> = Vec::new();
        let mut i: usize = 0;
        while i < all.len()
            invariant
                all@ == seq![Locale::PtBr, Locale::En],
                i <= 2,
                res@.len() == i,
                forall|j: int|
                    0 <= j < i ==> #[trigger] res@[j].locale == all@[j] && res@[j].label == (match all@[j] {
                        Locale::PtBr => self.locale_pt_br_label,
                        Locale::En => self.locale_en_label,
                    }),
            decreases 2 - i,
        {
            let l = all[i];
            res.push(LocaleOption { locale: l, label: self.locale_label(l) });
            i = i + 1;
        }
        res
    }

    /// "Found N file(s) via STRATEGY." in the current language.
    pub fn files_found(&self, count: usize, strategy: &str) -> (res: String)
        ensures
            res@ == (match self.language() {
                Locale::PtBr => "Foram encontrados "@ + decimal(count as nat) + " arquivo(s) via "@
                    + strategy@ + "."@,
                Locale::En => "Found "@ + decimal(count as nat) + " file(s) via "@ + strategy@ + "."@,
            }),
    {
        let mut s = String::new();
        match self.locale {
            Locale::PtBr => {
                push_str(&mut s, "Foram encontrados ");
                push_decimal(&mut s, count as u64);
                push_str(&mut s, " arquivo(s) via ");
            },
            Locale::En => {
                push_str(&mut s, "Found ");
                push_decimal(&mut s, count as u64);
                push_str(&mut s, " file(s) via ");
            },
        }
        push_str(&mut s, strategy);
        push_str(&mut s, ".");
        s
    }

    /// The label of the export button for `count` selected files.
    pub fn export_selected(&self, count: usize) -> (res: String)
        ensures
            res@ == (match self.language() {
                Locale::PtBr => "Exportar Selecionados ("@ + decimal(count as nat) + ")"@,
                Locale::En => "Export Selected ("@ + decimal(count as nat) + ")"@,
            }),
    {
        let mut s = String::new();
        match self.locale {
            Locale::PtBr => push_str(&mut s, "Exportar Selecionados ("),
            Locale::En => push_str(&mut s, "Export Selected ("),
        }
        push_decimal(&mut s, count as u64);
        push_str(&mut s, ")");
        s
    }

    /// The message shown after `count` files were exported.
    pub fn export_success(&self, count: usize) -> (res: String)
        ensures
            res@ == export_success_text(self.language(), count as nat),
            res@ == (match self.language() {
                Locale::PtBr => "✓ "@ + decimal(count as nat) + " arquivo(s) exportado(s) com sucesso."@,
                Locale::En => "✓ "@ + decimal(count as nat) + " file(s) exported successfully."@,
            }),
    {
        let mut s = String::new();
        push_str(&mut s, "✓ ");
        push_decimal(&mut s, count as u64);
        match self.locale {
            Locale::PtBr => push_str(&mut s, " arquivo(s) exportado(s) com sucesso."),
            Locale::En => push_str(&mut s, " file(s) exported successfully."),
        }
        s
    }

    /// The message shown when an export failed with `err`.
    pub fn export_error(&self, err: &str) -> (res: String)
        ensures
            res@ == "✗ "@ + err@,
    {
        let mut s = String::new();
        push_str(&mut s, "✗ ");
        push_str(&mut s, err);
        s
    }
}

} // verus!
