use webarchiver::request::{build_form_fields, display_url, save_endpoint};
use webarchiver::source::is_remote_source;
use webarchiver::ArchiveOpts;

#[test]
fn default_options() {
    let opts = ArchiveOpts::default();
    assert!(!opts.save_outlinks);
    assert!(opts.save_error);
    assert!(!opts.save_screenshot);
    assert_eq!(opts.concurrency, 10);
    assert_eq!(opts.sleep_secs, 30);
}

#[test]
fn form_for_outlinks_and_screenshot() {
    let opts = ArchiveOpts { save_outlinks: true, save_error: false, save_screenshot: true, ..ArchiveOpts::default() };
    let fields = build_form_fields("https://example.com/x", &opts);
    let pairs: Vec<(String, String)> = fields.into_iter().map(|f| (f.name, f.value)).collect();
    assert_eq!(
        pairs,
        vec![
            ("url".to_string(), "https://example.com/x".to_string()),
            ("capture_outlinks".to_string(), "on".to_string()),
            ("capture_screenshot".to_string(), "on".to_string()),
        ]
    );
}

#[test]
fn form_for_default_options() {
    let fields = build_form_fields("u", &ArchiveOpts::default());
    let pairs: Vec<(String, String)> = fields.into_iter().map(|f| (f.name, f.value)).collect();
    assert_eq!(
        pairs,
        vec![("url".to_string(), "u".to_string()), ("capture_all".to_string(), "on".to_string())]
    );
}

#[test]
fn form_for_everything_off() {
    let opts = ArchiveOpts { save_outlinks: false, save_error: false, save_screenshot: false, ..ArchiveOpts::default() };
    let fields = build_form_fields("u", &opts);
    assert_eq!(fields.len(), 1);
    assert_eq!(fields[0].name, "url");
    assert_eq!(fields[0].value, "u");
}

#[test]
fn endpoint_appends_target_path_encoded() {
    assert_eq!(
        save_endpoint("https://example.com/a"),
        "https://web.archive.org/save/https%3A%2F%2Fexample.com%2Fa"
    );
}

#[test]
fn endpoint_component_has_no_separators() {
    let endpoint = save_endpoint("https://example.com/x?y=1&z=2");
    let component = &endpoint["https://web.archive.org/save/".len()..];
    assert!(!component.contains('/'));
    assert!(!component.contains(':'));
    assert!(!component.contains('?'));
    assert!(!component.contains('&'));
}

#[test]
fn endpoint_component_decodes_back_to_target() {
    let target = "https://example.com/a b?q=x&y=z";
    let endpoint = save_endpoint(target);
    let component = &endpoint["https://web.archive.org/save/".len()..];
    assert_eq!(display_url(component), target);
}

#[test]
fn display_url_decodes_percent_escapes() {
    assert_eq!(display_url("https://example.com/a%20b"), "https://example.com/a b");
}

#[test]
fn display_url_keeps_plain_text() {
    assert_eq!(display_url("https://example.com/plain"), "https://example.com/plain");
}

#[test]
fn display_url_falls_back_on_invalid_utf8() {
    assert_eq!(display_url("%FF"), "%FF");
}

#[test]
fn remote_sources_start_with_the_scheme_marker() {
    assert!(is_remote_source("https://example.com/sitemap.xml"));
    assert!(is_remote_source("http://example.com/sitemap.xml"));
    assert!(!is_remote_source("sitemap.xml"));
    assert!(!is_remote_source("/var/data/sitemap.xml"));
    assert!(!is_remote_source("ht"));
    assert!(!is_remote_source(""));
}
