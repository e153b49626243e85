use dexopt_analyzer::label::{
    is_class_name_label, is_class_name_shaped, keep_label, normalize,
};
use dexopt_analyzer::package::Package;

fn pkg(name: &str) -> Package {
    Package { name: name.to_string(), path: format!("/data/app/{}/base.apk", name) }
}

#[test]
fn normalize_trims_and_joins_lines() {
    assert_eq!(normalize("  My App \n"), "My App");
    assert_eq!(normalize("My\nApp"), "My App");
    assert_eq!(normalize("My\r\nApp"), "My  App");
    assert_eq!(normalize("\n \r\n"), "");
    assert_eq!(normalize(""), "");
    assert_eq!(normalize("a\tb"), "a\tb");
}

#[test]
fn label_equal_to_the_package_name_is_kept() {
    let p = pkg("com.example.Foo");
    assert_eq!(p.accept_label(Some("com.example.Foo")), Some("com.example.Foo".to_string()));
    assert_eq!(p.accept_label(Some("  com.example.Foo\n")), Some("com.example.Foo".to_string()));
    assert!(!is_class_name_label("com.example.Foo", "com.example.Foo"));
}

#[test]
fn label_that_differs_from_the_package_name_is_rejected() {
    let p = pkg("com.example.Foo");
    assert_eq!(p.accept_label(Some("com.example.foo")), None);
    assert_eq!(p.accept_label(Some("com.example.Foo.Bar")), None);
    assert!(is_class_name_label("com.example.foo", "com.example.Foo"));
    assert!(is_class_name_label("com.example.Foo", "com.example.Foo "));
}

#[test]
fn label_with_a_space_is_kept() {
    let p = pkg("com.example.app");
    assert_eq!(p.accept_label(Some("My App")), Some("My App".to_string()));
    assert_eq!(p.accept_label(Some("My.App 2.0")), Some("My.App 2.0".to_string()));
    assert_eq!(
        p.accept_label(Some("com.example.internal Main")),
        Some("com.example.internal Main".to_string())
    );
    assert!(!is_class_name_label("My.App 2.0", "com.example.app"));
}

#[test]
fn label_like_a_class_name_is_rejected() {
    let p = pkg("com.example.app");
    assert_eq!(p.accept_label(Some("com.example.internal")), None);
    assert_eq!(p.accept_label(Some("com.example.app.Main_Activity2")), None);
    assert_eq!(p.accept_label(Some("\u{e9}t\u{e9}.Caf\u{e9}")), None);
    assert!(is_class_name_label("com.example.internal", "com.example.app"));
}

#[test]
fn label_with_other_characters_is_kept() {
    let p = pkg("com.example.app");
    assert_eq!(p.accept_label(Some("App-2.0")), Some("App-2.0".to_string()));
    assert_eq!(p.accept_label(Some("Dr.Web!")), Some("Dr.Web!".to_string()));
    assert_eq!(p.accept_label(Some("a.b\tc")), Some("a.b\tc".to_string()));
    assert_eq!(p.accept_label(Some("Calculator")), Some("Calculator".to_string()));
    assert_eq!(p.accept_label(Some("Main_Activity")), Some("Main_Activity".to_string()));
    assert_eq!(p.accept_label(Some("a.b\nc")), Some("a.b c".to_string()));
}

#[test]
fn empty_label_falls_through() {
    let p = pkg("com.example.app");
    assert_eq!(p.accept_label(Some("")), None);
    assert_eq!(p.accept_label(Some("  \n")), None);
    assert_eq!(p.accept_label(None), None);
    assert_eq!(
        p.get_label(Some(""), Some("application-label:'From Tool'\n")),
        Some("From Tool".to_string())
    );
    assert_eq!(
        p.get_label(Some(" \r\n"), Some("application-label:'From Tool'\n")),
        Some("From Tool".to_string())
    );
    assert_eq!(p.get_label(Some(""), None), None);
}

#[test]
fn usable_label_wins_over_the_tool() {
    let p = pkg("com.example.app");
    assert_eq!(
        p.get_label(Some("My App"), Some("application-label:'From Tool'\n")),
        Some("My App".to_string())
    );
    assert_eq!(p.get_label(Some("My App"), None), Some("My App".to_string()));
}

#[test]
fn rejected_label_asks_the_tool() {
    let p = pkg("com.example.app");
    assert_eq!(
        p.get_label(Some("com.example.internal"), Some("application-label:'From Tool'\n")),
        Some("From Tool".to_string())
    );
    assert_eq!(p.get_label(Some("com.example.internal"), None), None);
    assert_eq!(p.get_label(Some("com.example.internal"), Some("no label here\n")), None);
    assert_eq!(p.get_label(None, Some("application-label:'X'")), Some("X".to_string()));
    assert_eq!(p.get_label(None, None), None);
}

#[test]
fn badging_label_is_what_stands_in_quotes() {
    let out = "package: name='com.example.app' versionCode='1'\n\
               sdkVersion:'21'\n\
               application-label:'My App'\n\
               application-label-de:'Meine App'\n\
               application: label='My App' icon='res/icon.png'\n";
    assert_eq!(Package::label_from_badging(out), Some("My App".to_string()));
}

#[test]
fn badging_label_edge_cases() {
    assert_eq!(Package::label_from_badging(""), None);
    assert_eq!(Package::label_from_badging("application-label:''\n"), Some("".to_string()));
    assert_eq!(Package::label_from_badging("  application-label:'A'  \r\n"), Some("A".to_string()));
    assert_eq!(Package::label_from_badging("application-label:'It's'\n"), Some("It".to_string()));
    assert_eq!(Package::label_from_badging("application-label:A'\n"), None);
    assert_eq!(Package::label_from_badging("application-label-de:'A'\n"), None);
    assert_eq!(Package::label_from_badging("x application-label:'A'\n"), None);
}

#[test]
fn badging_line_without_closing_quote_is_passed_over() {
    assert_eq!(Package::label_from_badging("application-label:'open\n"), None);
    assert_eq!(
        Package::label_from_badging("application-label:'open\napplication-label:'Second'\n"),
        Some("Second".to_string())
    );
    assert_eq!(
        Package::label_from_badging("application-label:'First'\napplication-label:'Second'\n"),
        Some("First".to_string())
    );
}

#[test]
fn shape_of_a_qualified_name() {
    assert!(is_class_name_shaped("com.example.internal", "com.example.app"));
    assert!(is_class_name_shaped("a.b-c!", "com.example.app"));
    assert!(is_class_name_shaped(".", ""));
    assert!(!is_class_name_shaped("com.example.app", "com.example.app"));
    assert!(!is_class_name_shaped("My App", "com.example.app"));
    assert!(!is_class_name_shaped("My.App 2.0", "com.example.app"));
    assert!(!is_class_name_shaped("Calculator", "com.example.app"));
    assert!(!is_class_name_shaped("", "com.example.app"));
    assert!(is_class_name_shaped("com.example.App", "com.example.app"));
    assert!(is_class_name_shaped("a.b\tc", "x"));
}

#[test]
fn keep_label_drops_empty_and_class_names() {
    assert_eq!(keep_label("My App".to_string(), false), Some("My App".to_string()));
    assert_eq!(keep_label("com.example.internal".to_string(), true), None);
    assert_eq!(keep_label("".to_string(), false), None);
    assert_eq!(keep_label("".to_string(), true), None);
    assert_eq!(keep_label(" ".to_string(), false), Some(" ".to_string()));
}
