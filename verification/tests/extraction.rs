use webarchiver::extract_urls;

#[test]
fn extract_two_urls() {
    let text = "<urlset><url><loc>https://example.com/a</loc></url><url><loc>https://example.com/b</loc></url></urlset>";
    let urls = extract_urls(text).unwrap();
    assert_eq!(urls, vec!["https://example.com/a".to_string(), "https://example.com/b".to_string()]);
}

#[test]
fn extract_empty_urlset() {
    let urls = extract_urls("<urlset></urlset>").unwrap();
    assert_eq!(urls, Vec::<String>::new());
}

#[test]
fn extract_self_closing_urlset() {
    let urls = extract_urls("<urlset/>").unwrap();
    assert_eq!(urls, Vec::<String>::new());
}

#[test]
fn extract_with_prolog_whitespace_and_attributes() {
    let text = "<?xml version=\"1.0\" encoding=\"UTF-8\"?>\n<urlset xmlns=\"http://www.sitemaps.org/schemas/sitemap/0.9\">\n  <url>\n    <loc>https://example.com/page</loc>\n    <lastmod>2024-01-01</lastmod>\n  </url>\n</urlset>\n";
    let urls = extract_urls(text).unwrap();
    assert_eq!(urls, vec!["https://example.com/page".to_string()]);
}

#[test]
fn extract_keeps_document_order() {
    let text = "<urlset><url><loc>c</loc></url><url><loc>a</loc></url><url><loc>b</loc></url></urlset>";
    let urls = extract_urls(text).unwrap();
    assert_eq!(urls, vec!["c".to_string(), "a".to_string(), "b".to_string()]);
}

#[test]
fn extract_ignores_unknown_children() {
    let text = "<urlset><meta>x</meta><url><loc>u</loc><priority>0.5</priority></url></urlset>";
    let urls = extract_urls(text).unwrap();
    assert_eq!(urls, vec!["u".to_string()]);
}

#[test]
fn malformed_xml_fails() {
    assert!(extract_urls("<urlset><url></urlset>").is_err());
    assert!(extract_urls("not xml at all").is_err());
    assert!(extract_urls("<urlset>").is_err());
    assert!(extract_urls("").is_err());
}

#[test]
fn url_without_loc_fails() {
    assert!(extract_urls("<urlset><url><lastmod>2024</lastmod></url></urlset>").is_err());
    assert!(extract_urls("<urlset><url></url></urlset>").is_err());
    assert!(extract_urls("<urlset><url/></urlset>").is_err());
}

#[test]
fn duplicate_loc_fails() {
    assert!(extract_urls("<urlset><url><loc>a</loc><loc>b</loc></url></urlset>").is_err());
}

#[test]
fn wrong_root_fails() {
    assert!(extract_urls("<sitemapindex><url><loc>a</loc></url></sitemapindex>").is_err());
}

#[test]
fn trailing_content_fails() {
    assert!(extract_urls("<urlset></urlset>extra").is_err());
}

#[test]
fn extract_skips_comments() {
    let text = "<urlset><!-- first --><url><!-- x --><loc>a</loc></url><!-- last --></urlset>";
    assert_eq!(extract_urls(text).unwrap(), vec!["a".to_string()]);
}

#[test]
fn extract_accepts_doctype() {
    let text = "<?xml version=\"1.0\"?>\n<!DOCTYPE urlset>\n<urlset><url><loc>a</loc></url></urlset>";
    assert_eq!(extract_urls(text).unwrap(), vec!["a".to_string()]);
}

#[test]
fn extract_skips_nested_ignored_elements() {
    let text = "<urlset><url><loc>a</loc><image:image><image:loc>pic</image:loc><image:caption><![CDATA[a <b> c]]></image:caption></image:image></url></urlset>";
    assert_eq!(extract_urls(text).unwrap(), vec!["a".to_string()]);
}

#[test]
fn extract_resolves_predefined_entities() {
    let text = "<urlset><url><loc>https://example.com/?a=1&amp;b=2</loc></url></urlset>";
    assert_eq!(extract_urls(text).unwrap(), vec!["https://example.com/?a=1&b=2".to_string()]);
    let all = "<urlset><url><loc>&lt;&gt;&apos;&quot;&amp;</loc></url></urlset>";
    assert_eq!(extract_urls(all).unwrap(), vec!["<>'\"&".to_string()]);
}

#[test]
fn extract_rejects_undefined_entities() {
    assert!(extract_urls("<urlset><url><loc>a&nbsp;b</loc></url></urlset>").is_err());
    assert!(extract_urls("<urlset><url><loc>a&b</loc></url></urlset>").is_err());
}

#[test]
fn extract_rejects_unterminated_comment() {
    assert!(extract_urls("<urlset><!-- never closed <url><loc>a</loc></url></urlset>").is_err());
}

#[test]
fn parse_error_description() {
    let err = extract_urls("<broken").unwrap_err();
    assert_eq!(err.describe(), "sitemap is not a well-formed urlset document");
}
