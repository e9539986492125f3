use paperdown::assets::{
    content_type_to_suffix, extract_image_url, figure_file_name, figure_replacements,
    find_http_url, is_http_url, localize_figures, plan_figures, received_with, suffix_of_path,
    url_suffix,
};
use paperdown::json::Json;

fn text(s: &str) -> Json {
    Json::Text(s.to_string())
}

fn object(fields: Vec<(&str, Json)>) -> Json {
    Json::object(fields.into_iter().map(|(n, v)| (n.to_string(), v)).collect())
}

#[test]
fn addresses_on_the_web_are_known_by_their_start() {
    assert!(is_http_url("http://x"));
    assert!(is_http_url("https://"));
    assert!(!is_http_url("HTTP://x"));
    assert!(!is_http_url("ftp://x"));
    assert!(!is_http_url(" http://x"));
}

#[test]
fn the_first_address_in_a_value_is_found() {
    let value = Json::array(vec![
        text("no"),
        object(vec![("a", Json::Null), ("b", Json::array(vec![text("http://1")]))]),
        text("http://2"),
    ]);
    assert_eq!(find_http_url(&value).as_deref(), Some("http://1"));
    assert_eq!(find_http_url(&Json::Bool(true)), None);
    assert_eq!(find_http_url(&Json::Array(Vec::new())), None);
}

#[test]
fn the_fields_of_a_block_are_looked_at_in_order() {
    let block = object(vec![
        ("content", text("caption")),
        ("file_url", text("http://5")),
        ("image_url", object(vec![("url", text("http://2"))])),
        ("url", text("http://4")),
    ]);
    assert_eq!(extract_image_url(&block).as_deref(), Some("http://2"));
    let block = object(vec![("file_url", text("http://5"))]);
    assert_eq!(extract_image_url(&block).as_deref(), Some("http://5"));
    assert_eq!(extract_image_url(&object(vec![("other", text("http://x"))])), None);
}

#[test]
fn content_types_give_suffixes() {
    for (content_type, suffix) in [
        ("image/jpeg", ".jpg"),
        ("image/jpg", ".jpg"),
        (" IMAGE/PNG ; charset=x", ".png"),
        ("image/webp", ".webp"),
        ("image/gif", ".gif"),
        ("image/svg+xml", ".svg"),
        ("image/bmp", ".bmp"),
        ("image/tiff", ".tif"),
    ] {
        assert_eq!(content_type_to_suffix(Some(content_type)).as_deref(), Some(suffix));
    }
    assert_eq!(content_type_to_suffix(Some("text/html")), None);
    assert_eq!(content_type_to_suffix(None), None);
}

#[test]
fn addresses_give_suffixes() {
    assert_eq!(url_suffix("https://x.org/a/b.PNG?q=1.zip#f").as_deref(), Some(".PNG"));
    assert_eq!(url_suffix("https://x.org/a.b/c"), None);
    assert_eq!(url_suffix("https://x.org"), None);
    assert_eq!(url_suffix("not an address.png"), None);
    assert_eq!(url_suffix("https://x.org/.png"), None);
    assert_eq!(suffix_of_path("/a/b.tar.gz").as_deref(), Some(".gz"));
    assert_eq!(suffix_of_path("/a/b."), None);
}

fn image(url: Option<&str>) -> Json {
    let mut fields = vec![("label", text("image"))];
    if let Some(url) = url {
        fields.push(("url", text(url)));
    }
    object(fields)
}

#[test]
fn each_figure_is_planned_once() {
    let pages = vec![
        Json::array(vec![object(vec![("label", text("text"))]), image(Some("http://a"))]),
        Json::Null,
        Json::array(vec![image(Some("http://a")), image(None), image(Some("http://b"))]),
    ];
    let plan = plan_figures(&pages);
    assert_eq!(
        plan.figures,
        vec![
            ("http://a".to_string(), "fig-001-002".to_string()),
            ("http://b".to_string(), "fig-003-003".to_string()),
        ]
    );
    assert_eq!(plan.remote_figure_links, 3);
    assert_eq!(plan.image_blocks, 4);
}

#[test]
fn figures_are_named_by_what_the_server_says() {
    let name = |ok: bool, length: Option<&str>, kind: Option<&str>, url: &str| {
        figure_file_name(ok, length, kind, url, "fig-001-002", 100)
    };
    let url = "https://x/y.webp";
    assert_eq!(name(true, None, Some("image/png"), url).as_deref(), Some("fig-001-002.png"));
    assert_eq!(name(true, Some("100"), None, url).as_deref(), Some("fig-001-002.webp"));
    assert_eq!(name(true, Some("x"), Some("Image/x-odd"), url).as_deref(), Some("fig-001-002.webp"));
    assert_eq!(name(true, None, None, "https://x/y").as_deref(), Some("fig-001-002.img"));
    assert_eq!(name(false, None, Some("image/png"), url), None);
    assert_eq!(name(true, Some("101"), Some("image/png"), url), None);
    assert_eq!(name(true, None, Some("text/html"), url), None);
}

#[test]
fn downloads_are_limited() {
    assert_eq!(received_with(60, 40, 100), Some(100));
    assert_eq!(received_with(60, 41, 100), None);
    assert_eq!(received_with(u64::MAX, 1, u64::MAX), None);
}

#[test]
fn figures_that_were_downloaded_are_local() {
    let results = vec![
        ("http://a".to_string(), Some("fig-001-002.png".to_string())),
        ("http://b".to_string(), None),
    ];
    assert_eq!(
        figure_replacements(&results),
        vec![("http://a".to_string(), "figures/fig-001-002.png".to_string())]
    );
    let localized = localize_figures("![](http://a) ![](http://b)", &results);
    assert_eq!(localized.markdown, "![](figures/fig-001-002.png) ![](http://b)");
    assert_eq!(localized.downloaded_figures, 1);
    assert_eq!(localized.replacements.len(), 1);
}
