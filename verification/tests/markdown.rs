use paperdown::html::{
    contains_excluded_math_tags, contains_tex_delimiters, extract_html_fragment,
    find_html_region_end, is_html_allowlisted, is_html_excluded, is_html_void, parse_html_tag,
    HtmlTagKind,
};
use paperdown::images::{
    find_replacement, replace_group, replace_image_urls, strip_html_img_alt_attributes,
};
use paperdown::segments::{
    convert_html_fragments, html_fragments, join_segments, sanitize_html_fragments,
    split_segments, usable_conversion, Segment,
};

fn chars(s: &str) -> Vec<char> {
    s.chars().collect()
}

fn pairs(items: &[(&str, &str)]) -> Vec<(String, String)> {
    items.iter().map(|(a, b)| (a.to_string(), b.to_string())).collect()
}

// ---- Addresses ----

#[test]
fn addresses_of_images_are_replaced() {
    let map = pairs(&[("https://x/a.png", "figures/a.png"), ("http://x/b", "figures/b.jpg")]);
    let md = "![f](https://x/a.png) <img src = 'http://x/b'> (https://x/other) (https://x/a.png )\u{e9}(https://x/a.png)";
    assert_eq!(
        replace_image_urls(md, &map),
        "![f](figures/a.png) <img src = 'figures/b.jpg'> (https://x/other) (https://x/a.png )\u{e9}(figures/a.png)"
    );
    assert_eq!(replace_image_urls(md, &Vec::new()), md);
    assert_eq!(replace_image_urls("src=\"http://x/b' ", &map), "src=\"figures/b.jpg' ");
}

#[test]
fn the_last_replacement_of_an_address_counts() {
    let map = pairs(&[("u", "1"), ("v", "2"), ("u", "3")]);
    assert_eq!(find_replacement(&map, &chars("u")).map(String::as_str), Some("3"));
    assert_eq!(find_replacement(&map, &chars("v")).map(String::as_str), Some("2"));
    assert_eq!(find_replacement(&map, &chars("w")), None);
}

#[test]
fn groups_of_matches_are_replaced() {
    let s = chars("a[u]b[v]c");
    let matches = vec![
        vec![Some((1, 4)), Some((2, 3))],
        vec![Some((5, 8)), Some((6, 7))],
    ];
    let got: String = replace_group(&s, &matches, 1, &pairs(&[("v", "long")])).iter().collect();
    assert_eq!(got, "a[u]b[long]c");
    let same: String = replace_group(&s, &matches, 2, &pairs(&[("v", "long")])).iter().collect();
    assert_eq!(same, "a[u]b[v]c");
}

// ---- Alternative texts ----

#[test]
fn alternative_texts_are_left_out() {
    for (given, expected) in [
        ("<img src=\"a.png\" alt=\"x > y\"/>", "<img src=\"a.png\"/>"),
        ("<IMG ALT='a b' src=c>", "<IMG src=c>"),
        ("<img alt src=c>", "<img src=c>"),
        ("<img alt = bare src=c> alt=\"t\"", "<img src=c> alt=\"t\""),
        ("<img data-alt=\"k\" title=\"alt='x'\">", "<img data-alt=\"k\" title=\"alt='x'\">"),
        ("<image alt=x> <img alt=x", "<image alt=x> <img alt=x"),
        ("no image", "no image"),
    ] {
        assert_eq!(strip_html_img_alt_attributes(given), expected);
    }
}

// ---- Tags and fragments ----

#[test]
fn tags_are_parsed() {
    let s = chars("<A-b href='>'/ >");
    let tag = parse_html_tag(&s, 0).expect("tag");
    assert_eq!(tag.name, &chars("A-b")[..]);
    assert_eq!(tag.kind, HtmlTagKind::Opening);
    assert_eq!(tag.end, 16);
    assert!(tag.self_closing);
    let s = chars("x</p >");
    let tag = parse_html_tag(&s, 1).expect("tag");
    assert_eq!(tag.name, &chars("p")[..]);
    assert_eq!(tag.kind, HtmlTagKind::Closing);
    assert!(!tag.self_closing);
    assert_eq!(parse_html_tag(&chars("<!-- x -->"), 0).expect("tag").kind, HtmlTagKind::Special);
    assert!(parse_html_tag(&chars("< p>"), 0).is_none());
    assert!(parse_html_tag(&chars("</>"), 0).is_none());
    assert!(parse_html_tag(&chars("<p"), 0).is_none());
    assert!(parse_html_tag(&chars("p>"), 0).is_none());
    assert!(parse_html_tag(&chars("<"), 1).is_none());
}

#[test]
fn elements_are_known_by_name_in_any_case() {
    assert!(is_html_allowlisted(&chars("BlockQuote")));
    assert!(is_html_allowlisted(&chars("h6")));
    assert!(!is_html_allowlisted(&chars("h7")));
    assert!(!is_html_allowlisted(&chars("script")));
    assert!(is_html_excluded(&chars("SUB")));
    assert!(!is_html_excluded(&chars("p")));
    assert!(is_html_void(&chars("Img")));
    assert!(!is_html_void(&chars("div")));
}

#[test]
fn regions_end_where_their_element_does() {
    let end = |s: &str| find_html_region_end(&chars(s), 0, &chars("div"));
    assert_eq!(end("<div><p>a<br></p><!-- </div> --></DIV>x"), Some(38));
    assert_eq!(end("<div><p></div></p>"), None);
    assert_eq!(end("<div>"), None);
    assert_eq!(end("</div>"), None);
}

#[test]
fn mathematics_is_not_converted() {
    assert!(contains_tex_delimiters(&chars("a $x$ b")));
    assert!(contains_tex_delimiters(&chars("$$")));
    assert!(!contains_tex_delimiters(&chars("cost \\$5 or $6")));
    assert!(!contains_tex_delimiters(&chars("end \\")));
    assert!(contains_excluded_math_tags(&chars("<p>H<sub>2</sub>O</p>")));
    assert!(contains_excluded_math_tags(&chars("`x </math>")));
    assert!(!contains_excluded_math_tags(&chars("`<sub>` <p>")));
    let end = |s: &str| extract_html_fragment(&chars(s), 0);
    assert_eq!(end("<p>a</p>b"), Some(8));
    assert_eq!(end("<br>x"), Some(4));
    assert_eq!(end("<span/>x"), Some(7));
    assert_eq!(end("<p>H<sub>2</sub>O</p>"), None);
    assert_eq!(end("<p>$x$</p>"), None);
    assert_eq!(end("<script>x</script>"), None);
    assert_eq!(end("<p>a"), None);
    assert_eq!(end("</p>"), None);
}

// ---- Segments ----

fn shown(segments: &[Segment]) -> Vec<String> {
    segments
        .iter()
        .map(|s| match s {
            Segment::Text(t) => format!("T {t}"),
            Segment::Code(t) => format!("C {t}"),
            Segment::Html { index, raw } => format!("H{index} {raw}"),
        })
        .collect()
}

#[test]
fn markdown_is_cut_and_put_together_again() {
    let md = "a <b>x</b> `<p>` <hr>\n```\n<p>c</p>\n```\n<p>d</p>` <i>e";
    let segments = split_segments(md);
    assert_eq!(
        shown(&segments),
        vec![
            "T a ",
            "H0 <b>x</b>",
            "T  ",
            "C `<p>`",
            "T  ",
            "H1 <hr>",
            "T \n",
            "C ```\n<p>c</p>\n```\n",
            "H2 <p>d</p>",
            "T ` <i>e",
        ]
    );
    assert_eq!(html_fragments(&segments), vec!["<b>x</b>", "<hr>", "<p>d</p>"]);
    assert_eq!(join_segments(&segments, &Vec::new()), md);
    let converted = vec![Some("**x**".to_string()), None, Some("d".to_string())];
    assert_eq!(
        join_segments(&segments, &converted),
        "a **x** `<p>` <hr>\n```\n<p>c</p>\n```\nd` <i>e"
    );
}

#[test]
fn blank_conversions_are_not_used() {
    assert_eq!(usable_conversion(" \n\t".to_string()), None);
    assert_eq!(usable_conversion(" x ".to_string()), Some(" x ".to_string()));
}

#[test]
fn fragments_are_converted_outside_code_and_mathematics() {
    let md = "a <b>x</b> `<b>y</b>` <p>H<sub>2</sub>O</p>\n```\n<b>z</b>\n```\n";
    assert_eq!(
        sanitize_html_fragments(md),
        "a **x** `<b>y</b>` <p>H<sub>2</sub>O</p>\n```\n<b>z</b>\n```\n"
    );
    assert_eq!(sanitize_html_fragments("no *html* here\n"), "no *html* here\n");
    assert_eq!(sanitize_html_fragments("x <span></span> y"), "x <span></span> y");
    let raws = vec!["<i>k</i>".to_string(), "<div> </div>".to_string()];
    assert_eq!(convert_html_fragments(&raws), vec![Some("*k*".to_string()), None]);
}

#[test]
fn no_html_is_found_behind_the_end() {
    let s: Vec<char> = "<p>x</p>".chars().collect();
    let p: Vec<char> = "p".chars().collect();
    for start in [8, 9, 99, usize::MAX] {
        assert!(parse_html_tag(&s, start).is_none());
        assert_eq!(find_html_region_end(&s, start, &p), None);
        assert_eq!(extract_html_fragment(&s, start), None);
    }
    assert_eq!(extract_html_fragment(&s, 0), Some(8));
}
