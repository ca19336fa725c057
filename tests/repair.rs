use autoword::repair::{remove_xml_tags, sanitize_broken_tags};

#[test]
fn placeholder_split_over_runs_is_joined() {
    let xml = "<w:t>{{</w:t><w:t>na</w:t><w:t>me}}</w:t>";
    assert_eq!(sanitize_broken_tags(xml), "<w:t>{{ name }}</w:t>");
}

#[test]
fn placeholder_gets_one_space_inside_each_brace_pair() {
    assert_eq!(sanitize_broken_tags("a{{x}}b{{   y.z  }}c"), "a{{ x }}b{{ y.z }}c");
}

#[test]
fn text_without_placeholders_is_unchanged() {
    let xml = "<w:p><w:r><w:t>plain { text } here</w:t></w:r></w:p>";
    assert_eq!(sanitize_broken_tags(xml), xml);
}

#[test]
fn unclosed_placeholder_is_left_alone() {
    assert_eq!(sanitize_broken_tags("x {{ y <b>z</b>"), "x {{ y <b>z</b>");
}

#[test]
fn empty_input_repairs_to_empty() {
    assert_eq!(sanitize_broken_tags(""), "");
}

#[test]
fn repair_is_idempotent_on_examples() {
    let inputs = [
        "<w:t>{{</w:t><w:r>a</w:r><w:t>.b}}</w:t> and {{c}}",
        "{{{x}}}",
        "{{}}}",
        "{{ <a>  </a> }} tail {{",
    ];
    for x in inputs.iter() {
        let once = sanitize_broken_tags(x);
        let twice = sanitize_broken_tags(&once);
        assert_eq!(once, twice);
    }
}

#[test]
fn markup_that_creates_a_closing_pair_breaks_idempotence() {
    let once = sanitize_broken_tags("{{}<b>}x}}");
    assert_eq!(once, "{{ }}x }}");
    assert_eq!(sanitize_broken_tags(&once), "{{  }}x }}");
}

#[test]
fn tags_are_removed() {
    assert_eq!(remove_xml_tags("a<b>c</b>d"), "acd");
    assert_eq!(remove_xml_tags("<<x>y>"), "y>");
    assert_eq!(remove_xml_tags("a < b"), "a < b");
}
