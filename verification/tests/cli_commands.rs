use rustrecover::carved_file::CarvedFile;
use rustrecover::commands::{
    save_report_events, ProgressEvent,
    scan_listing_header, scan_listing_row, carved_table_header, carved_table_row, table_separator, total_line, DevicesArgs, DevicesCommand,
    HexdumpArgs, HexdumpCommand, HexdumpError, ProgressReporter, RecoverArgs, RecoverCommand, ScanArgs,
    ScanCommand, SilentReporter, StrategyArg, DEFAULT_HEXDUMP_LENGTH,
};
use rustrecover::constants::DEFAULT_CHUNK_SIZE;
use rustrecover::hexdump::format_hexdump;
use rustrecover::signature::{supported_signatures, FileKind};
use rustrecover::validation::{SourceKind, SourceValidator};

// ── hexdump (command) ────────────────────────────────────────────────────────

#[test]
fn hexdump_tests_should_format_single_line_hexdump() {
    let data: [u8; 3] = [0xAA, 0xBB, 0xCC];
    let result = HexdumpCommand::format_hexdump(&data);
    assert!(result.contains("aa bb cc"));
}

#[test]
fn hexdump_tests_should_format_offset_correctly() {
    let data: [u8; 32] = [0x00; 32];
    let result = HexdumpCommand::format_hexdump(&data);
    assert!(result.contains("00000000"));
    assert!(result.contains("00000010"));
}

#[test]
fn should_return_newline_for_empty_buffer() {
    let data: [u8; 0] = [];
    let result = HexdumpCommand::format_hexdump(&data);
    assert_eq!(result, "\n");
}

#[test]
fn should_break_line_every_16_bytes() {
    let data = [0xFFu8; 32];
    let result = HexdumpCommand::format_hexdump(&data);
    let lines: Vec<&str> = result.lines().collect();
    assert!(lines.iter().any(|l| l.starts_with("00000000")));
    assert!(lines.iter().any(|l| l.starts_with("00000010")));
}

#[test]
fn should_format_bytes_as_lowercase_hex() {
    let data: [u8; 1] = [0xAB];
    let result = HexdumpCommand::format_hexdump(&data);
    assert!(result.contains("ab"));
    assert!(!result.contains("AB"));
}

// ── hexdump (free function) ──────────────────────────────────────────────────

#[test]
fn hexdump_should_format_single_line_hexdump() {
    let data: [u8; 3] = [0xAA, 0xBB, 0xCC];
    let result = format_hexdump(&data[..]);
    assert!(result.contains("aa bb cc"));
}

#[test]
fn hexdump_should_format_offset_correctly() {
    let data: [u8; 32] = [0x00; 32];
    let result = format_hexdump(&data[..]);
    assert!(result.contains("00000000"));
    assert!(result.contains("00000010"));
}

#[test]
fn should_return_empty_output_for_empty_buffer() {
    let data: [u8; 0] = [];
    let result = format_hexdump(&data[..]);
    assert!(result.len() > 0);
}

#[test]
fn hexdump_has_exact_layout() {
    let mut data = vec![0u8; 17];
    data[0] = 0x0F;
    data[16] = 0xF0;
    let expected = format!(
        "\n00000000: 0f {}\n00000010: f0 \n",
        "00 ".repeat(15)
    );
    assert_eq!(format_hexdump(&data), expected);
}

#[test]
fn hexdump_read_length_is_cut_to_the_source() {
    let cmd = HexdumpCommand::new(HexdumpArgs {
        source: "disk.img".to_string(),
        offset: 100,
        length: DEFAULT_HEXDUMP_LENGTH,
    });
    assert_eq!(cmd.read_length(1000), Ok(256));
    assert_eq!(cmd.read_length(150), Ok(50));
    assert_eq!(cmd.read_length(100), Err(HexdumpError::OffsetBeyondEnd { offset: 100, file_size: 100 }));
    assert_eq!(cmd.header_line(50), "Source: disk.img  |  Offset: 100  |  Length: 50 bytes");
}

// ── recover ──────────────────────────────────────────────────────────────────

fn make_command(types: Option<Vec<FileKind>>) -> RecoverCommand {
    RecoverCommand::new(RecoverArgs {
        source: "dummy.img".to_string(),
        output: "/tmp/out".to_string(),
        types,
        chunk_size: DEFAULT_CHUNK_SIZE,
        strategy: StrategyArg::Carver,
    })
}

#[test]
fn resolve_signatures_returns_all_when_types_is_none() {
    let cmd = make_command(None);
    let result = cmd.resolve_signatures();
    assert_eq!(result.len(), supported_signatures().len());
}

#[test]
fn resolve_signatures_returns_only_jpeg_when_types_is_jpeg() {
    let cmd = make_command(Some(vec![FileKind::Jpeg]));
    let result = cmd.resolve_signatures();
    assert_eq!(result.len(), 1);
    assert_eq!(result[0].kind, FileKind::Jpeg);
}

#[test]
fn resolve_signatures_returns_jpeg_and_png_when_types_contains_both() {
    let cmd = make_command(Some(vec![FileKind::Jpeg, FileKind::Png]));
    let result = cmd.resolve_signatures();
    assert_eq!(result.len(), 2);
    assert!(result.iter().any(|s| s.kind == FileKind::Jpeg));
    assert!(result.iter().any(|s| s.kind == FileKind::Png));
}

#[test]
fn resolve_signatures_returns_empty_when_types_is_empty_vec() {
    let cmd = make_command(Some(vec![]));
    let result = cmd.resolve_signatures();
    assert!(result.is_empty());
}

#[test]
fn resolve_signatures_keeps_the_supported_order() {
    let cmd = make_command(Some(vec![FileKind::Zip, FileKind::Jpeg]));
    let kinds: Vec<FileKind> = cmd.resolve_signatures().iter().map(|s| s.kind).collect();
    assert_eq!(kinds, vec![FileKind::Jpeg, FileKind::Zip]);
}

#[test]
fn strategy_and_filter_labels() {
    let cmd = make_command(None);
    assert_eq!(cmd.strategy_label(), "carver (signature-based)");
    assert_eq!(cmd.type_filter_label(), "all types");
    let cmd = make_command(Some(vec![FileKind::Jpeg, FileKind::Png, FileKind::Pdf]));
    assert_eq!(cmd.type_filter_label(), "jpg, png, pdf");
    let fat = RecoverCommand::new(RecoverArgs {
        source: "a".to_string(),
        output: "b".to_string(),
        types: None,
        chunk_size: 1,
        strategy: StrategyArg::Fat32,
    })
    .with_reporter(Box::new(SilentReporter::new()));
    assert_eq!(fat.strategy_label(), "fat32 (filesystem-aware)");
}

#[test]
fn silent_reporter_accepts_every_call() {
    let mut r = SilentReporter::new();
    r.set_length(3);
    r.set_message("x");
    r.inc(1);
    r.finish_with_message("done");
    r.abandon("stop");
}

// ── scan listing ─────────────────────────────────────────────────────────────

#[test]
fn carved_table_lines_match_the_column_layout() {
    let header = carved_table_header();
    assert_eq!(
        header,
        format!("{:<4}  {:<6}  {:>18}  {:>14}  {:>10}", "#", "Type", "Start (offset)", "End (offset)", "Size")
    );
    let file = CarvedFile { kind: FileKind::Png, offset_start: 8, offset_end: 28 };
    assert_eq!(
        carved_table_row(3, &file),
        format!("{:<4}  {:<6}  {:>18}  {:>14}  {:>10}", 3, "PNG", 8, 28, "20 B")
    );
    assert_eq!(table_separator(62), "-".repeat(62));
    assert_eq!(total_line(2), "Total: 2 file(s) found");
}

#[test]
fn commands_are_built_from_their_arguments() {
    let scan = ScanCommand::new(ScanArgs { source: "x.img".to_string(), chunk_size: 512 });
    assert_eq!(scan.chunk_size(), 512);
    let _ = DevicesCommand::new(DevicesArgs);
}

// ── source validation ────────────────────────────────────────────────────────

#[test]
fn source_validator_accepts_files_and_block_devices() {
    assert!(SourceValidator::judge("disk.img", SourceKind::RegularFile).is_ok());
    assert!(SourceValidator::judge("/dev/sdb", SourceKind::BlockDevice).is_ok());
}

#[test]
fn source_validator_refuses_a_directory() {
    let err = SourceValidator::judge("/tmp", SourceKind::Directory).unwrap_err();
    assert_eq!(err, "'/tmp' is a directory. Provide a disk image file or block device path.");
}

#[test]
fn source_validator_refuses_special_files() {
    let err = SourceValidator::judge("/dev/tty", SourceKind::Other).unwrap_err();
    assert_eq!(err, "'/dev/tty' is not a regular file or block device.");
}

#[test]
fn source_validator_names_unreadable_sources() {
    let msg = SourceValidator::access_error("missing.img", "No such file or directory (os error 2)");
    assert_eq!(msg, "Cannot access 'missing.img': No such file or directory (os error 2)");
}

// ── scan listing ─────────────────────────────────────────────────────────────

#[test]
fn scan_listing_shows_type_and_size() {
    assert_eq!(scan_listing_header(), "#     Type    Size");
    let c = CarvedFile { kind: FileKind::Jpeg, offset_start: 10, offset_end: 1034 };
    assert_eq!(scan_listing_row(3, &c), "3     JPG     1024 B");
    let z = CarvedFile { kind: FileKind::Zip, offset_start: 0, offset_end: 22 };
    assert_eq!(scan_listing_row(12, &z), "12    ZIP     22 B");
}

#[test]
fn command_accessors_return_their_arguments() {
    let scan = ScanCommand::new(ScanArgs { source: "disk.img".to_string(), chunk_size: 4096 });
    assert_eq!(scan.source(), "disk.img");
    assert_eq!(scan.chunk_size(), 4096);
    let hex = HexdumpCommand::new(HexdumpArgs { source: "d.img".to_string(), offset: 7, length: 16 });
    assert_eq!(hex.source_path(), "d.img");
    assert_eq!(hex.start_offset(), 7);
    let rec = RecoverCommand::new(RecoverArgs {
        source: "s.img".to_string(),
        output: "out".to_string(),
        types: None,
        chunk_size: 512,
        strategy: StrategyArg::Fat32,
    });
    assert_eq!(rec.source(), "s.img");
    assert_eq!(rec.output(), "out");
    assert_eq!(rec.chunk_size(), 512);
    assert_eq!(rec.strategy_arg(), StrategyArg::Fat32);
}

#[test]
fn source_validator_without_block_devices_accepts_only_files() {
    assert!(SourceValidator::judge_files_only("disk.img", SourceKind::RegularFile).is_ok());
    assert_eq!(
        SourceValidator::judge_files_only("COM1", SourceKind::Other).unwrap_err(),
        "'COM1' is not a regular file."
    );
    assert_eq!(
        SourceValidator::judge_files_only("C:\\", SourceKind::Directory).unwrap_err(),
        "'C:\\' is a directory. Provide a disk image file or block device path."
    );
}

#[test]
fn saving_reports_each_file_then_done() {
    let names = vec!["file_0000_0.jpg".to_string(), "file_0001_9.png".to_string()];
    assert_eq!(
        save_report_events(&names),
        vec![
            ProgressEvent::SetLength(2),
            ProgressEvent::SetMessage("Saved file_0000_0.jpg".to_string()),
            ProgressEvent::Inc(1),
            ProgressEvent::SetMessage("Saved file_0001_9.png".to_string()),
            ProgressEvent::Inc(1),
            ProgressEvent::Finish("Done".to_string()),
        ]
    );
}

#[test]
fn recover_command_reports_through_its_reporter() {
    struct Counting(std::rc::Rc<std::cell::Cell<u64>>);
    impl ProgressReporter for Counting {
        fn set_length(&mut self, _total: u64) {}
        fn set_message(&mut self, _message: &str) {}
        fn inc(&mut self, delta: u64) {
            self.0.set(self.0.get() + delta);
        }
        fn finish_with_message(&mut self, _message: &str) {}
        fn abandon(&mut self, _message: &str) {}
    }
    let count = std::rc::Rc::new(std::cell::Cell::new(0));
    let mut cmd = RecoverCommand::new(RecoverArgs {
        source: "s.img".to_string(),
        output: "out".to_string(),
        types: None,
        chunk_size: 512,
        strategy: StrategyArg::Carver,
    })
    .with_reporter(Box::new(Counting(count.clone())));
    cmd.report(save_report_events(&vec!["a".to_string(), "b".to_string(), "c".to_string()]));
    assert_eq!(count.get(), 3);
}

#[test]
fn recover_command_reports_every_event_in_order() {
    struct Recording(std::rc::Rc<std::cell::RefCell<Vec<String>>>);
    impl ProgressReporter for Recording {
        fn set_length(&mut self, total: u64) {
            self.0.borrow_mut().push(format!("length {}", total));
        }
        fn set_message(&mut self, message: &str) {
            self.0.borrow_mut().push(format!("message {}", message));
        }
        fn inc(&mut self, delta: u64) {
            self.0.borrow_mut().push(format!("inc {}", delta));
        }
        fn finish_with_message(&mut self, message: &str) {
            self.0.borrow_mut().push(format!("finish {}", message));
        }
        fn abandon(&mut self, message: &str) {
            self.0.borrow_mut().push(format!("abandon {}", message));
        }
    }
    let log = std::rc::Rc::new(std::cell::RefCell::new(Vec::new()));
    let mut cmd = RecoverCommand::new(RecoverArgs {
        source: "s.img".to_string(),
        output: "out".to_string(),
        types: None,
        chunk_size: 512,
        strategy: StrategyArg::Carver,
    })
    .with_reporter(Box::new(Recording(log.clone())));
    cmd.report(save_report_events(&vec!["file_0000_0.jpg".to_string(), "file_0001_9.png".to_string()]));
    assert_eq!(
        *log.borrow(),
        vec![
            "length 2".to_string(),
            "message Saved file_0000_0.jpg".to_string(),
            "inc 1".to_string(),
            "message Saved file_0001_9.png".to_string(),
            "inc 1".to_string(),
            "finish Done".to_string(),
        ]
    );
    cmd.report(Vec::new());
    assert_eq!(log.borrow().len(), 6);
}
