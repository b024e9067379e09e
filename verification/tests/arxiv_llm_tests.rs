use rag_core::extract_sections;
use rag_core::is_innovation_section;
use rag_core::load_model;
use rag_core::push_section;
use rag_core::PromptCell;
use rag_core::Section;
use rag_core::arxiv::extract_pdf_links;

#[test]
fn sections_recognized_through_lowercasing() {
    // Headings in upper case are recognized only through real lowercasing.
    let body_a = "a ".repeat(150); // 300 characters of content
    let body_b = "b ".repeat(150);
    let text = format!("THE ABSTRACT\n{}\nINTRODUCTION AND OUTLINE\n{}", body_a, body_b);
    let sections = extract_sections(&text);
    assert_eq!(sections.len(), 2);
    assert_eq!(sections[0].name, "abstract");
    assert_eq!(sections[0].content, format!("{}\n", body_a));
    assert_eq!(sections[1].name, "introduction");
    assert_eq!(sections[1].content, format!("{}\n", body_b));
}

#[test]
fn short_sections_dropped() {
    let text = "Abstract\ntoo short\nIntroduction\nstill short";
    let sections = extract_sections(&text);
    assert!(sections.is_empty());
}

#[test]
fn leading_content_has_unknown_name() {
    let body = "c ".repeat(150);
    let text = format!("{}\nAbstract\n", body);
    let sections = extract_sections(&text);
    assert_eq!(sections.len(), 1);
    assert_eq!(sections[0].name, "unknown");
}

#[test]
fn push_section_honors_minimum() {
    let mut sections: Vec<Section> = Vec::new();
    let mut current = Section {
        name: "abstract".to_string(),
        content: "x".repeat(201),
    };
    push_section(&mut sections, &mut current);
    assert_eq!(sections.len(), 1);
    assert_eq!(current.content, "");
    assert_eq!(current.name, "abstract");

    let mut short = Section {
        name: "abstract".to_string(),
        content: "x".repeat(200),
    };
    push_section(&mut sections, &mut short);
    assert_eq!(sections.len(), 1);
}

#[test]
fn section_minimum_counts_bytes() {
    // 150 two-byte characters: 300 bytes of content, over the 200-byte
    // minimum although only 150 characters.
    let mut sections: Vec<Section> = Vec::new();
    let mut current = Section {
        name: "abstract".to_string(),
        content: "\u{00E9}".repeat(150),
    };
    push_section(&mut sections, &mut current);
    assert_eq!(sections.len(), 1);
}

#[test]
fn innovation_section_names() {
    assert!(is_innovation_section("abstract"));
    assert!(is_innovation_section("introduction"));
    assert!(is_innovation_section("limitations"));
    assert!(is_innovation_section("future_work"));
    assert!(!is_innovation_section("methods"));
    assert!(!is_innovation_section("Abstract"));
}

#[test]
fn pdf_links_extracted_from_feed() {
    let xml = r#"<feed>
        <entry>
            <link href="http://example.org/page" type="text/html"/>
            <link href="http://example.org/paper.pdf" type="application/pdf"/>
            <other href="http://example.org/decoy.pdf" type="application/pdf"/>
        </entry>
        <link type="application/pdf" href="http://example.org/second.pdf"/>
    </feed>"#;
    let links = extract_pdf_links(xml);
    assert_eq!(
        links,
        vec![
            "http://example.org/paper.pdf".to_string(),
            "http://example.org/second.pdf".to_string(),
        ]
    );
}

#[test]
fn pdf_links_empty_without_matches() {
    let links = extract_pdf_links("<feed><link href=\"a\" type=\"text/html\"/></feed>");
    assert!(links.is_empty());
    let none = extract_pdf_links("");
    assert!(none.is_empty());
}

#[test]
fn model_loads_once() {
    let mut cell = PromptCell::empty();
    assert!(cell.system_prompt().is_none());
    load_model(&mut cell).unwrap();
    let first = cell.system_prompt().unwrap().clone();
    assert_eq!(
        first,
        "The assistant will act like a helpful research assistant."
    );
    load_model(&mut cell).unwrap();
    assert_eq!(cell.system_prompt().unwrap(), &first);
}
