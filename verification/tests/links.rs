use webscraper::links::classify_paths;
use webscraper::links::filter_relative_paths;
use webscraper::links::find_anchor_tags;
use webscraper::links::LinkClassification;

fn strings(items: &[&str]) -> Vec<String> {
    items.iter().map(|s| s.to_string()).collect()
}

#[test]
fn relative_entries_kept_in_order() {
    let result = filter_relative_paths(strings(&["/", "a", "./b", "http://x"]));
    assert_eq!(result, strings(&["/", "./b"]));
}

#[test]
fn no_relative_entries_yields_diagnostic_then_raw_list() {
    let result = filter_relative_paths(strings(&["http://x", "mailto:y"]));
    assert_eq!(result.len(), 3);
    assert!(result[0].contains("No relative paths found"));
    assert_eq!(&result[1..], &strings(&["http://x", "mailto:y"])[..]);
}

#[test]
fn diagnostic_line_embeds_the_raw_list() {
    let result = filter_relative_paths(strings(&["http://x", "mailto:y"]));
    assert_eq!(
        result[0],
        "No relative paths found in [\"http://x\", \"mailto:y\"]"
    );
}

#[test]
fn empty_input_yields_diagnostic_alone() {
    let result = filter_relative_paths(Vec::new());
    assert_eq!(result, strings(&["No relative paths found in []"]));
}

#[test]
fn classify_paths_names_the_two_outcomes() {
    match classify_paths(strings(&["/top", "other"])) {
        LinkClassification::Relative(rel) => assert_eq!(rel, strings(&["/top"])),
        LinkClassification::Degraded { .. } => panic!("relative entries were present"),
    }
    match classify_paths(strings(&["other"])) {
        LinkClassification::Relative(_) => panic!("no relative entry was present"),
        LinkClassification::Degraded { diagnostic, raw } => {
            assert!(diagnostic.contains("No relative paths found"));
            assert_eq!(raw, strings(&["other"]));
        }
    }
}

#[test]
fn anchors_are_collected_in_document_order() {
    let html = "<html><body>\
        <a href=\"/x\">one</a>\
        <p>text</p>\
        <a href=\"http://ext\">two</a>\
        <a href=\"./y\">three</a>\
        </body></html>";
    let tags = find_anchor_tags(html);
    assert_eq!(tags, strings(&["/x", "http://ext", "./y"]));
}

#[test]
fn anchors_without_href_are_skipped() {
    let html = "<a>plain</a><a name=\"top\">named</a><a href=\"/only\">kept</a>";
    assert_eq!(find_anchor_tags(html), strings(&["/only"]));
}

#[test]
fn malformed_markup_is_parsed_leniently() {
    let html = "<a href=\"/broken\">unclosed";
    assert_eq!(find_anchor_tags(html), strings(&["/broken"]));
}
