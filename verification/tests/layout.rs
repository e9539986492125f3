use paperdown::json::Json;
use paperdown::layout::{count_table_regions, layout_json, render_layout_json};
use serde_json::Value;

fn json_of(value: &Value) -> Json {
    match value {
        Value::Null => Json::Null,
        Value::Bool(b) => Json::Bool(*b),
        Value::Number(n) => Json::Number(n.to_string()),
        Value::String(s) => Json::Text(s.clone()),
        Value::Array(items) => Json::Array(items.iter().map(json_of).collect()),
        Value::Object(map) => {
            Json::Object(map.iter().map(|(name, value)| (name.clone(), json_of(value))).collect())
        }
    }
}

fn parsed(text: &str) -> Value {
    serde_json::from_str(text).expect("valid JSON")
}

fn pages(text: &str) -> Vec<Json> {
    match json_of(&parsed(text)) {
        Json::Array(items) => items,
        _ => panic!("expected a list"),
    }
}

// Renders the layout and parses the text back into a value.
fn render(
    layout: &Vec<Json>,
    replacements: &Vec<(String, String)>,
    tables_written: usize,
    source: &str,
) -> Value {
    let text = render_layout_json(layout, replacements, tables_written, source).expect("renders");
    serde_json::from_str(&text).expect("output is valid JSON")
}

#[test]
fn full_render_links_image_and_table_and_preserves_latex() {
    let layout = pages(
        r#"[[
            {"label": "title", "bbox_2d": [72, 41, 928, 96], "content": "Paper title"},
            {
                "label": "formula",
                "bbox_2d": [10, 10, 200, 50],
                "content": "$\\int_0^\\infty e^{-x^2}\\,dx = \\frac{\\sqrt{\\pi}}{2}$"
            },
            {
                "label": "image",
                "bbox_2d": [90, 120, 910, 390],
                "content": "https://example.com/fig.png"
            },
            {
                "label": "table",
                "bbox_2d": [80, 530, 920, 780],
                "content": "<table>x</table>"
            }
        ]]"#,
    );
    let replacements = vec![(
        "https://example.com/fig.png".to_string(),
        "figures/fig-001-001.png".to_string(),
    )];

    let doc = render(&layout, &replacements, 1, "paper.pdf");

    assert_eq!(doc["schema"], "paperdown.layout.v1");
    assert_eq!(doc["source_pdf"], "paper.pdf");
    assert_eq!(doc["ocr_model"], "glm-ocr");
    assert_eq!(doc["bbox_format"]["order"], "x1,y1,x2,y2");
    assert_eq!(doc["bbox_format"]["origin"], "top-left");
    assert_eq!(doc["table_artifact_match"], "order");

    let regions = doc["pages"][0]["regions"]
        .as_array()
        .expect("regions array");
    assert_eq!(doc["pages"][0]["page"], 1);
    assert_eq!(regions.len(), 4);

    assert_eq!(regions[0]["label"], "title");
    assert_eq!(regions[0]["index"], 0);
    assert_eq!(regions[0]["bbox"].clone(), parsed("[72, 41, 928, 96]"));
    assert_eq!(regions[0]["content"], "Paper title");
    assert_eq!(regions[0]["artifact"], Value::Null);

    assert_eq!(regions[1]["label"], "formula");
    assert_eq!(
        regions[1]["content"].as_str(),
        Some(r"$\int_0^\infty e^{-x^2}\,dx = \frac{\sqrt{\pi}}{2}$"),
    );
    assert_eq!(regions[1]["artifact"], Value::Null);

    assert_eq!(regions[2]["label"], "image");
    assert_eq!(regions[2]["artifact"], "figures/fig-001-001.png");

    assert_eq!(regions[3]["label"], "table");
    assert_eq!(regions[3]["artifact"], "tables/table_001.html");
}

#[test]
fn table_count_mismatch_skips_table_links() {
    let layout = pages(
        r#"[[
            {"label": "table", "bbox_2d": [1, 2, 3, 4], "content": "<table>a</table>"},
            {"label": "table", "bbox_2d": [5, 6, 7, 8], "content": "<table>b</table>"}
        ]]"#,
    );

    let doc = render(&layout, &Vec::new(), 3, "paper.pdf");

    assert_eq!(doc["table_artifact_match"], "none");
    let regions = doc["pages"][0]["regions"]
        .as_array()
        .expect("regions array");
    assert_eq!(regions.len(), 2);
    assert!(
        regions.iter().all(|r| r["artifact"].is_null()),
        "every table artifact must be null when region count != tables written"
    );
}

#[test]
fn missing_or_non_string_fields_become_null() {
    let layout = pages(r#"[[{"label": 123}, {"weird": "block"}]]"#);

    let doc = render(&layout, &Vec::new(), 0, "paper.pdf");
    let regions = doc["pages"][0]["regions"]
        .as_array()
        .expect("regions array");

    for region in regions {
        assert_eq!(region["label"], Value::Null);
        assert_eq!(region["bbox"], Value::Null);
        assert_eq!(region["content"], Value::Null);
        assert_eq!(region["artifact"], Value::Null);
    }
}

#[test]
fn non_array_page_emits_empty_regions() {
    let layout = pages(r#"[{"not": "an array"}]"#);

    let doc = render(&layout, &Vec::new(), 0, "paper.pdf");

    assert_eq!(doc["pages"][0]["page"], 1);
    assert_eq!(doc["pages"][0]["regions"].clone(), parsed("[]"));
}

#[test]
fn tables_are_numbered_over_all_pages() {
    let layout = pages(
        r#"[[{"label": "text"}, {"label": "table"}], 5,
            [{"label": "table", "bbox": [1.5, 2]}, {"label": "image", "url": "https://x/y"}]]"#,
    );
    assert_eq!(count_table_regions(&layout), 2);
    let doc = render(&layout, &Vec::new(), 2, "p");
    assert_eq!(doc["pages"][0]["regions"][1]["artifact"], "tables/table_001.html");
    assert_eq!(doc["pages"][2]["page"], 3);
    assert_eq!(doc["pages"][2]["regions"][0]["artifact"], "tables/table_002.html");
    assert_eq!(doc["pages"][2]["regions"][0]["bbox"].clone(), parsed("[1.5, 2]"));
    assert_eq!(doc["pages"][2]["regions"][1]["artifact"], Value::Null);
}

#[test]
fn values_are_copied_as_they_are() {
    let value = json_of(&parsed(r#"{"a": [1, 2.5, null, true, {"b": "c"}], "d": "e"}"#));
    assert_eq!(value.copy(), value);
    assert!(value.is_object());
    assert_eq!(value.get("zz"), None);
    assert_eq!(Json::of_text("x").get("d"), None);
    assert_eq!(value.get("a").and_then(|a| a.as_array()).map(Vec::len), Some(5));
}

#[test]
fn a_layout_is_written_on_several_lines() {
    let layout = pages(r#"[[{"label": "text", "bbox": [1.5, 2e300], "content": "a\nb"}]]"#);
    let text = render_layout_json(&layout, &Vec::new(), 0, "p.pdf").expect("renders");
    assert_eq!(
        text,
        r#"{
  "bbox_format": {
    "order": "x1,y1,x2,y2",
    "origin": "top-left"
  },
  "ocr_model": "glm-ocr",
  "pages": [
    {
      "page": 1,
      "regions": [
        {
          "artifact": null,
          "bbox": [
            1.5,
            2e+300
          ],
          "content": "a\nb",
          "index": 0,
          "label": "text"
        }
      ]
    }
  ],
  "schema": "paperdown.layout.v1",
  "source_pdf": "p.pdf",
  "table_artifact_match": "none"
}
"#
    );
    let document = layout_json(&layout, &Vec::new(), 0, "p.pdf");
    assert_eq!(json_of(&parsed(&text)), document);
}

#[test]
fn numbers_of_a_layout_are_written_as_they_were_read() {
    let max = serde_json::Number::from_f64(f64::MAX).expect("finite").to_string();
    let boxes = format!("[{max}, -{max}, 0.1, 5e-324, 17976931348623157, 18446744073709551615]");
    let layout = pages(&format!(r#"[[{{"bbox": {boxes}}}]]"#));
    let doc = render(&layout, &Vec::new(), 0, "p");
    assert_eq!(doc["pages"][0]["regions"][0]["bbox"].clone(), parsed(&boxes));
}

#[test]
fn a_layout_with_no_number_for_a_number_is_not_written() {
    let block = Json::object(vec![("bbox".to_string(), Json::Number("1.2.3".to_string()))]);
    let layout = vec![Json::array(vec![block])];
    assert_eq!(render_layout_json(&layout, &Vec::new(), 0, "p"), None);
}
