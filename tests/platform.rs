use helix_plugin::{library_file_name, normalize_name, Platform};

#[test]
fn file_name_replaces_dashes_on_macos() {
    assert_eq!(library_file_name("auto-dark-mode", Platform::MacOs), "auto_dark_mode.dylib");
}

#[test]
fn file_name_on_linux_and_windows() {
    assert_eq!(library_file_name("test_plugin", Platform::Linux), "test_plugin.so");
    assert_eq!(library_file_name("x-y", Platform::Windows), "x_y.dll");
}

#[test]
fn normalize_keeps_other_characters() {
    assert_eq!(normalize_name("a-b_c-💞"), "a_b_c_💞");
    assert_eq!(normalize_name(""), "");
    assert_eq!(normalize_name("plain"), "plain");
}

#[test]
fn platform_from_os_name() {
    assert_eq!(Platform::from_os_name("linux"), Some(Platform::Linux));
    assert_eq!(Platform::from_os_name("macos"), Some(Platform::MacOs));
    assert_eq!(Platform::from_os_name("windows"), Some(Platform::Windows));
    assert_eq!(Platform::from_os_name("plan9"), None);
    assert_eq!(Platform::from_os_name("Linux"), None);
}

#[test]
fn library_suffixes() {
    assert_eq!(Platform::Linux.library_suffix(), "so");
    assert_eq!(Platform::MacOs.library_suffix(), "dylib");
    assert_eq!(Platform::Windows.library_suffix(), "dll");
}
