use metasearch::engines::duckduckgo::is_sponsored;
use metasearch::engines::{parse_images, parse_search};

#[test]
fn parse_search_extracts_rows_in_order() {
    let html = "<html><body><div class=\"serp__results\">\
        <div class=\"result\"><a class=\"result__a\" href=\"https://one.example\">One</a>\
        <div class=\"result__snippet\">first snippet</div></div>\
        <div class=\"result\"><a class=\"result__a\" href=\"https://two.example\">Two</a>\
        <div class=\"result__snippet\">second snippet</div></div>\
        </div></body></html>";
    let rows = parse_search(html, ".serp__results .result", ".result__a", ".result__a", ".result__snippet");
    assert_eq!(rows.len(), 2);
    assert_eq!(rows[0].url, "https://one.example");
    assert_eq!(rows[0].title, "One");
    assert_eq!(rows[0].description, "first snippet");
    assert_eq!(rows[1].url, "https://two.example");
    assert_eq!(rows[1].title, "Two");
    assert_eq!(rows[1].description, "second snippet");
}

#[test]
fn parse_search_defaults_missing_fields() {
    let html = "<html><body><div class=\"serp__results\">\
        <div class=\"result\">no link here</div></div></body></html>";
    let rows = parse_search(html, ".serp__results .result", ".result__a", ".result__a", ".result__snippet");
    assert_eq!(rows.len(), 1);
    assert_eq!(rows[0].url, "");
    assert_eq!(rows[0].title, "");
    assert_eq!(rows[0].description, "");
}

#[test]
fn parse_images_extracts_src_and_title() {
    let html = "<html><body><div class=\"images\">\
        <div class=\"image\"><img src=\"https://img.example/a.png\"/>\
        <div class=\"caption\">A picture</div></div>\
        </div></body></html>";
    let imgs = parse_images(html, ".images .image", ".caption", "img");
    assert_eq!(imgs.len(), 1);
    assert_eq!(imgs[0].url, "https://img.example/a.png");
    assert_eq!(imgs[0].title, "A picture");
}

#[test]
fn brave_parse_selects_positioned_snippets() {
    let html = "<html><body><div id=\"results\">\
        <div class=\"snippet\" data-pos=\"1\"><a href=\"https://hit.example\">link</a>\
        <div class=\"title\">Hit</div><div class=\"generic-snippet\">a hit</div></div>\
        <div class=\"snippet standalone\" data-pos=\"2\"><a href=\"https://skip.example\">s</a>\
        <div class=\"title\">Skipped</div></div>\
        </div></body></html>";
    let rows = metasearch::engines::brave::parse_response(html).unwrap();
    assert_eq!(rows.len(), 1);
    assert_eq!(rows[0].url, "https://hit.example");
    assert_eq!(rows[0].title, "Hit");
    assert_eq!(rows[0].description, "a hit");
}

#[test]
fn duckduckgo_parse_decodes_redirects_and_drops_sponsored() {
    let html = "<html><body><div class=\"serp__results\">\
        <div class=\"result\"><a class=\"result__a\" \
        href=\"/redirect?uddg=https%3A%2F%2Ftarget.example%2Fpage\">Target</a>\
        <div class=\"result__snippet\">about target</div></div>\
        <div class=\"result\"><a class=\"result__a\" \
        href=\"https://duckduckgo.com/y.js?ad_provider=x\">Ad</a>\
        <div class=\"result__snippet\">an ad</div></div>\
        </div></body></html>";
    let rows = metasearch::engines::duckduckgo::parse_response(html).unwrap();
    assert_eq!(rows.len(), 1);
    assert_eq!(rows[0].url, "https://target.example/page");
    assert_eq!(rows[0].title, "Target");
    assert_eq!(rows[0].description, "about target");
}

#[test]
fn duckduckgo_keeps_plain_hrefs() {
    let html = "<html><body><div class=\"serp__results\">\
        <div class=\"result\"><a class=\"result__a\" href=\"https://plain.example\">Plain</a>\
        <div class=\"result__snippet\">no redirect</div></div>\
        </div></body></html>";
    let rows = metasearch::engines::duckduckgo::parse_response(html).unwrap();
    assert_eq!(rows.len(), 1);
    assert_eq!(rows[0].url, "https://plain.example");
}

#[test]
fn sponsored_links_are_recognised() {
    assert!(is_sponsored("https://duckduckgo.com/l/?uddg=x"));
    assert!(is_sponsored("https://duckduckgo.com/y.js?ad"));
    assert!(is_sponsored("https://duckduckgo.com/?uddg=x"));
    assert!(!is_sponsored("https://plain.example"));
}

#[test]
fn duckduckgo_percent_decodes_redirect_values() {
    // the uddg value is encoded twice: resolving the query pair strips one
    // layer, the percent-decoding pass strips the second
    let html = "<html><body><div class=\"serp__results\">\
        <div class=\"result\"><a class=\"result__a\" \
        href=\"/redirect?uddg=https%253A%252F%252Fdouble.example%252F\">Double</a>\
        <div class=\"result__snippet\">twice encoded</div></div>\
        </div></body></html>";
    let rows = metasearch::engines::duckduckgo::parse_response(html).unwrap();
    assert_eq!(rows.len(), 1);
    assert_eq!(rows[0].url, "https://double.example/");
}
