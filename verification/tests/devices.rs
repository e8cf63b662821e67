use rustrecover::device::{
    DeviceDetector, DeviceDetectorError, LinuxDeviceDetector, StorageDevice, WindowsDeviceDetector, DeviceFiles, SysBlockEntry,
};

// --- parse_size_bytes ---

#[test]
fn parse_size_bytes_converts_blocks_to_bytes() {
    let result = LinuxDeviceDetector::parse_size_bytes("1953525168\n").unwrap();
    assert_eq!(result, 1953525168 * 512);
}

#[test]
fn parse_size_bytes_handles_zero() {
    let result = LinuxDeviceDetector::parse_size_bytes("0\n").unwrap();
    assert_eq!(result, 0);
}

#[test]
fn parse_size_bytes_trims_whitespace() {
    let result = LinuxDeviceDetector::parse_size_bytes("  2048  \n").unwrap();
    assert_eq!(result, 2048 * 512);
}

#[test]
fn parse_size_bytes_returns_error_for_non_numeric_input() {
    let result = LinuxDeviceDetector::parse_size_bytes("not_a_number");
    assert!(result.is_err());
}

#[test]
fn parse_size_bytes_returns_error_for_empty_string() {
    let result = LinuxDeviceDetector::parse_size_bytes("");
    assert!(result.is_err());
}

#[test]
fn parse_size_bytes_error_names_the_field_and_trimmed_value() {
    match LinuxDeviceDetector::parse_size_bytes("  12x4 \n") {
        Err(DeviceDetectorError::Parse { field, raw_value }) => {
            assert_eq!(field, "size");
            assert_eq!(raw_value, "12x4");
        }
        other => panic!("unexpected result: {:?}", other),
    }
}

#[test]
fn parse_size_bytes_accepts_a_plus_sign_like_str_parse() {
    assert_eq!(LinuxDeviceDetector::parse_size_bytes("+3").unwrap(), 3 * 512);
    assert!(LinuxDeviceDetector::parse_size_bytes("+").is_err());
    assert!(LinuxDeviceDetector::parse_size_bytes("-3").is_err());
}

#[test]
fn parse_size_bytes_rejects_values_beyond_u64() {
    assert!(LinuxDeviceDetector::parse_size_bytes("18446744073709551616").is_err());
}

// --- parse_removable ---

#[test]
fn parse_removable_returns_true_for_one() {
    assert!(LinuxDeviceDetector::parse_removable("1\n"));
}

#[test]
fn parse_removable_returns_false_for_zero() {
    assert!(!LinuxDeviceDetector::parse_removable("0\n"));
}

#[test]
fn parse_removable_returns_false_for_unexpected_value() {
    assert!(!LinuxDeviceDetector::parse_removable("2\n"));
}

#[test]
fn parse_removable_trims_whitespace() {
    assert!(LinuxDeviceDetector::parse_removable("  1  \n"));
}

// --- parse_model ---

#[test]
fn parse_model_trims_trailing_spaces() {
    let result = LinuxDeviceDetector::parse_model("TOSHIBA HDWD110       \n");
    assert_eq!(result, "TOSHIBA HDWD110");
}

#[test]
fn parse_model_trims_leading_and_trailing_whitespace() {
    let result = LinuxDeviceDetector::parse_model("  Samsung SSD 870  \n");
    assert_eq!(result, "Samsung SSD 870");
}

#[test]
fn parse_model_returns_empty_string_for_blank_content() {
    let result = LinuxDeviceDetector::parse_model("   \n");
    assert_eq!(result, "");
}

#[test]
fn parse_model_trims_unicode_whitespace() {
    let result = LinuxDeviceDetector::parse_model("\u{a0}\tWD Blue\u{3000}\r\n");
    assert_eq!(result, "WD Blue");
}

// --- describe_device / sort_devices ---

#[test]
fn describe_device_uses_model_when_present() {
    let device =
        LinuxDeviceDetector::describe_device("sda", "2048\n", "0\n", Some("  Samsung SSD 870 \n")).unwrap();
    assert_eq!(device.path, "/dev/sda");
    assert_eq!(device.name, "Samsung SSD 870");
    assert_eq!(device.size_bytes, 2048 * 512);
    assert!(!device.removable);
}

#[test]
fn describe_device_falls_back_to_device_name() {
    let device = LinuxDeviceDetector::describe_device("sdb", "8\n", "1\n", None).unwrap();
    assert_eq!(device.path, "/dev/sdb");
    assert_eq!(device.name, "sdb");
    assert_eq!(device.size_bytes, 4096);
    assert!(device.removable);
}

#[test]
fn describe_device_reports_unparsable_size() {
    assert!(LinuxDeviceDetector::describe_device("sdc", "abc", "0", None).is_err());
}

fn device(path: &str, name: &str) -> StorageDevice {
    StorageDevice { path: path.to_string(), name: name.to_string(), size_bytes: 0, removable: false }
}

#[test]
fn sort_devices_orders_by_path_and_keeps_ties_in_order() {
    let devices = vec![
        device("/dev/sdb", "b"),
        device("/dev/nvme0n1", "n"),
        device("/dev/sda", "a1"),
        device("/dev/sda", "a2"),
        device("/dev/sd", "short"),
    ];
    let sorted = LinuxDeviceDetector::sort_devices(devices);
    let names: Vec<&str> = sorted.iter().map(|d| d.name.as_str()).collect();
    assert_eq!(names, vec!["n", "short", "a1", "a2", "b"]);
}

#[test]
fn windows_detector_lists_no_device() {
    assert!(WindowsDeviceDetector::new().list_devices().unwrap().is_empty());
    let _ = DeviceDetector::new();
}

// --- devices_from_sysfs ---

fn physical(name: &str, size: &str, removable: &str, model: Option<&str>) -> Result<SysBlockEntry, DeviceDetectorError> {
    Ok(SysBlockEntry {
        name: name.to_string(),
        files: Some(DeviceFiles {
            size: Ok(size.to_string()),
            removable: Ok(removable.to_string()),
            model: model.map(|m| Ok(m.to_string())),
        }),
    })
}

fn virtual_entry(name: &str) -> Result<SysBlockEntry, DeviceDetectorError> {
    Ok(SysBlockEntry { name: name.to_string(), files: None })
}

fn io_failure(path: &str) -> DeviceDetectorError {
    DeviceDetectorError::Io { path: path.to_string(), source: std::io::Error::new(std::io::ErrorKind::Other, "boom") }
}

#[test]
fn sysfs_entries_give_one_sorted_device_per_physical_entry() {
    let entries = vec![
        physical("sdb", "100\n", "1\n", None),
        virtual_entry("loop0"),
        physical("sda", "2048\n", "0\n", Some(" Samsung SSD \n")),
    ];
    let devices = LinuxDeviceDetector::devices_from_sysfs(entries).unwrap();
    assert_eq!(devices.len(), 2);
    assert_eq!(devices[0].path, "/dev/sda");
    assert_eq!(devices[0].name, "Samsung SSD");
    assert_eq!(devices[0].size_bytes, 2048 * 512);
    assert!(!devices[0].removable);
    assert_eq!(devices[1].path, "/dev/sdb");
    assert_eq!(devices[1].name, "sdb");
    assert!(devices[1].removable);
}

#[test]
fn sysfs_entries_report_the_first_failure() {
    let entries = vec![
        physical("sda", "abc", "0", None),
        Err(io_failure("/sys/block")),
    ];
    match LinuxDeviceDetector::devices_from_sysfs(entries) {
        Err(DeviceDetectorError::Parse { field, raw_value }) => {
            assert_eq!(field, "size");
            assert_eq!(raw_value, "abc");
        },
        other => panic!("unexpected {:?}", other),
    }
    let entries = vec![
        virtual_entry("loop0"),
        Ok(SysBlockEntry {
            name: "sdc".to_string(),
            files: Some(DeviceFiles {
                size: Ok("8".to_string()),
                removable: Err(io_failure("/sys/block/sdc/removable")),
                model: None,
            }),
        }),
    ];
    match LinuxDeviceDetector::devices_from_sysfs(entries) {
        Err(DeviceDetectorError::Io { path, .. }) => assert_eq!(path, "/sys/block/sdc/removable"),
        other => panic!("unexpected {:?}", other),
    }
}

#[test]
fn sizes_fit_looks_only_at_entries_up_to_the_first_failure() {
    let too_big = "36028797018963968"; // 2^55 blocks: 2^64 bytes
    assert!(LinuxDeviceDetector::sizes_fit(&vec![physical("sda", "100", "0", None), virtual_entry("loop0")]));
    assert!(LinuxDeviceDetector::sizes_fit(&vec![]));
    assert!(!LinuxDeviceDetector::sizes_fit(&vec![physical("sda", too_big, "0", None)]));
    assert!(!LinuxDeviceDetector::sizes_fit(&vec![virtual_entry("loop0"), physical("sdb", too_big, "1", None)]));
    // The largest count whose bytes still fit.
    assert!(LinuxDeviceDetector::sizes_fit(&vec![physical("sda", "36028797018963967", "0", None)]));
    // After a failing entry nothing more is read.
    assert!(LinuxDeviceDetector::sizes_fit(&vec![Err(io_failure("/sys/block")), physical("sdb", too_big, "0", None)]));
    assert!(LinuxDeviceDetector::sizes_fit(&vec![physical("sda", "abc", "0", None), physical("sdb", too_big, "0", None)]));
}
