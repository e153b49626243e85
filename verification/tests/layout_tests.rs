use dexopt_analyzer::dexopt::DexOptInfo;
use dexopt_analyzer::layout::{
    align_line, box_width, center, display_name, get_status_color, is_bold, max_prefix_len,
    pad_right, remaining, StatusColor, BOX_MIN_WIDTH, SUMMARY_WIDTH,
};

fn info(line: &str) -> DexOptInfo {
    DexOptInfo::new(line.to_string(), None)
}

#[test]
fn colours_of_the_statuses() {
    assert_eq!(get_status_color("speed-profile"), StatusColor::Green);
    assert_eq!(get_status_color("speed"), StatusColor::Green);
    assert_eq!(get_status_color("verify"), StatusColor::Yellow);
    assert_eq!(get_status_color("quicken"), StatusColor::Blue);
    assert_eq!(get_status_color("run-from-apk"), StatusColor::Red);
    assert_eq!(get_status_color("error"), StatusColor::Red);
    assert_eq!(get_status_color("everything"), StatusColor::Magenta);
    assert_eq!(get_status_color("unknown"), StatusColor::White);
    assert_eq!(get_status_color(""), StatusColor::White);
    assert_eq!(get_status_color("Speed"), StatusColor::White);
    assert_eq!(get_status_color("speed-profil"), StatusColor::White);
}

#[test]
fn only_error_is_bold() {
    assert!(is_bold("error"));
    assert!(!is_bold("errors"));
    assert!(!is_bold("run-from-apk"));
    assert!(!is_bold(""));
}

#[test]
fn display_name_with_and_without_label() {
    assert_eq!(display_name(Some("My App"), "com.example.app"), "My App (com.example.app)");
    assert_eq!(display_name(None, "com.example.app"), "com.example.app");
    assert_eq!(display_name(Some(""), ""), " ()");
}

#[test]
fn pad_right_fills_to_the_width() {
    assert_eq!(pad_right("Package", 10), "Package   ");
    assert_eq!(pad_right("Package", 7), "Package");
    assert_eq!(pad_right("Package", 3), "Package");
    assert_eq!(pad_right("", 4), "    ");
    assert_eq!(pad_right("\u{e9}t\u{e9}", 5), format!("{:<5}", "\u{e9}t\u{e9}"));
    assert_eq!(pad_right("App Scope", 22), format!("{:<22}", "App Scope"));
}

#[test]
fn box_width_has_a_floor_and_a_margin() {
    assert_eq!(BOX_MIN_WIDTH, 40);
    assert_eq!(box_width(0), 40);
    assert_eq!(box_width(36), 40);
    assert_eq!(box_width(37), 41);
    assert_eq!(box_width(100), 104);
}

#[test]
fn center_puts_the_odd_column_right() {
    assert_eq!(center(40, 40), (0, 0));
    assert_eq!(center(40, 39), (0, 1));
    assert_eq!(center(40, 30), (5, 5));
    assert_eq!(center(SUMMARY_WIDTH, 23), (12, 12));
    assert_eq!(center(SUMMARY_WIDTH, 17), (15, 15));
    assert_eq!(center(47, 20), (13, 14));
}

#[test]
fn remaining_never_goes_below_zero() {
    assert_eq!(remaining(47, 27, 1), 19);
    assert_eq!(remaining(47, 27, 20), 0);
    assert_eq!(remaining(47, 27, 19), 1);
    assert_eq!(remaining(47, 27, 21), 0);
    assert_eq!(remaining(47, 2, 22), 23);
    assert_eq!(remaining(47, 50, 0), 0);
    assert_eq!(remaining(47, 27, usize::MAX), 0);
    assert_eq!(remaining(usize::MAX, usize::MAX, usize::MAX), 0);
}

#[test]
fn prefix_width_is_the_greatest_colon_offset() {
    assert_eq!(max_prefix_len(&vec![]), 0);
    assert_eq!(max_prefix_len(&vec![info("no colon")]), 0);
    assert_eq!(max_prefix_len(&vec![info("arm64: a"), info("arm: b"), info("none")]), 5);
    assert_eq!(max_prefix_len(&vec![info("arm: b"), info(": c")]), 3);
    assert_eq!(max_prefix_len(&vec![info("\u{e9}\u{e9}: b")]), 4);
}

#[test]
fn align_line_fills_the_prefix() {
    assert_eq!(align_line("arm: status=verify", 5), "arm  : status=verify");
    assert_eq!(align_line("arm64: status=speed", 5), "arm64: status=speed");
    assert_eq!(align_line("arm64: status=speed", 2), "arm64: status=speed");
    assert_eq!(align_line("no colon here", 8), "no colon here");
    assert_eq!(align_line(": x", 2), "  : x");
    assert_eq!(align_line("a:b:c", 3), "a  :b:c");
    let line = "\u{e9}\u{e9}: b";
    let at = line.find(':').unwrap();
    let (prefix, rest) = line.split_at(at);
    assert_eq!(align_line(line, 4), format!("{:width$}{}", prefix, rest, width = 4));
}
