use nohrs::display::{format_date, get_file_type, human_bytes};
use nohrs::numbers::{fmt_u64, parse_usize};
use nohrs::pages::PageKind;

#[test]
fn fmt_u64_renders_decimal() {
    assert_eq!(fmt_u64(0), "0");
    assert_eq!(fmt_u64(7), "7");
    assert_eq!(fmt_u64(1234567890), "1234567890");
    assert_eq!(fmt_u64(u64::MAX), "18446744073709551615");
}

#[test]
fn parse_usize_roundtrip() {
    assert_eq!(parse_usize("0"), Some(0));
    assert_eq!(parse_usize("123"), Some(123));
    assert_eq!(parse_usize(""), None);
    assert_eq!(parse_usize("12a"), None);
    assert_eq!(parse_usize("-1"), None);
    assert_eq!(parse_usize("99999999999999999999999999"), None);
}

#[test]
fn human_bytes_picks_units() {
    assert_eq!(human_bytes(0), "0 B");
    assert_eq!(human_bytes(512), "512 B");
    assert_eq!(human_bytes(1024), "1.0 KB");
    assert_eq!(human_bytes(1536), "1.5 KB");
    assert_eq!(human_bytes(10 * 1024 * 1024), "10.0 MB");
    assert_eq!(human_bytes(3221225472), "3.0 GB");
}

#[test]
fn format_date_renders_flat_calendar() {
    assert_eq!(format_date(&0), "1970/01/01");
    // 400 days after the epoch: year 1971, remainder 35 days.
    assert_eq!(format_date(&(400 * 86400)), "1971/02/06");
}

#[test]
fn get_file_type_labels() {
    assert_eq!(get_file_type("photo.jpg", "file"), "JPG");
    assert_eq!(get_file_type("noext", "file"), "ファイル");
    assert_eq!(get_file_type("whatever", "dir"), "フォルダ");
    assert_eq!(get_file_type("link", "symlink"), "リンク");
    assert_eq!(get_file_type("x", "other"), "other");
}

#[test]
fn page_kind_labels_and_icons() {
    assert_eq!(PageKind::Explorer.label(), "エクスプローラ");
    assert_eq!(PageKind::Git.label(), "Git");
    assert_eq!(PageKind::Settings.icon_path(), "icons/settings.svg");
    let all = PageKind::all();
    assert_eq!(all.len(), 5);
    assert!(matches!(all[0], PageKind::Explorer));
    assert!(matches!(all[4], PageKind::Settings));
}
