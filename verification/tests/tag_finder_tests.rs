use gasp::tag_finder::{TagEvent, TagFinder};

#[test]
fn test_split_tag_handling() {
    // Tag name split across chunks: "<Report" and "Sub>" as separate chunks.
    let mut finder = TagFinder::new();
    let mut events: Vec<TagEvent> = Vec::new();

    // First chunk contains part of opening tag
    events.extend(finder.push("<Report"));

    // No events emitted yet since the tag is incomplete
    assert_eq!(events.len(), 0);

    // Second chunk completes the opening tag
    events.extend(finder.push("Sub>{"));

    println!("Events after second chunk: {:?}", events);

    assert!(!events.is_empty(), "No events emitted after opening tag");

    let mut found_tag = false;
    for event in &events {
        if let TagEvent::Open(name) = event {
            if name == "ReportSub" {
                found_tag = true;
                break;
            }
        }
    }
    assert!(found_tag, "'ReportSub' found");

    events.clear();

    // Third chunk has content and closing tag
    events.extend(finder.push(" more content</ReportSub>"));

    println!("Events after third chunk: {:?}", events);

    let mut has_close = false;
    let mut has_bytes = false;

    for event in &events {
        match event {
            TagEvent::Close(name) if name == "ReportSub" => has_close = true,
            TagEvent::Bytes(_) => has_bytes = true,
            _ => {}
        }
    }

    assert!(has_close, "No close event for ReportSub tag");
    assert!(has_bytes, "No bytes event for content");
}

#[test]
fn test_extreme_tag_splitting() {
    // Tag opening bracket, name, and closing bracket all in separate chunks.
    let mut finder = TagFinder::new();
    let mut events: Vec<TagEvent> = Vec::new();

    events.extend(finder.push("<"));
    println!("Events after first chunk: {:?}", events);

    events.extend(finder.push("ReportSub"));
    println!("Events after second chunk: {:?}", events);

    events.extend(finder.push(">content"));
    println!("Events after third chunk: {:?}", events);

    let mut has_open_report = false;
    for event in &events {
        if let TagEvent::Open(name) = event {
            if name == "ReportSub" {
                has_open_report = true;
                break;
            }
        }
    }

    assert!(has_open_report, "No open event for ReportSub tag found");

    // Now test closing tag in chunks
    events.clear();

    events.extend(finder.push("</Report"));
    events.extend(finder.push("Sub>"));

    println!("Events after closing tag: {:?}", events);

    let mut has_close = false;
    for event in &events {
        if let TagEvent::Close(name) = event {
            if name == "ReportSub" {
                has_close = true;
                break;
            }
        }
    }

    assert!(has_close, "No close event for ReportSub tag found");
}

#[test]
fn test_tag_filtering() {
    // 1. Content inside ignored tags is completely skipped
    // 2. Only content inside wanted tags is processed
    let input = r#"<OuterTag>Some outer text<IgnoredTag>This content should be completely ignored</IgnoredTag>More outer text<WantedTag>This content should be processed</WantedTag><UnwantedTag>This content should be skipped</UnwantedTag></OuterTag>"#;

    let wanted = vec!["WantedTag".to_string(), "OuterTag".to_string()];
    let ignored = vec!["IgnoredTag".to_string()];

    let mut finder = TagFinder::new_with_filter(wanted, ignored);
    let mut events: Vec<TagEvent> = Vec::new();

    for event in finder.push(input) {
        println!("Event: {:?}", event);
        events.push(event);
    }

    let mut open_tags = Vec::new();
    let mut content_chunks = Vec::new();
    let mut close_tags = Vec::new();

    for event in &events {
        match event {
            TagEvent::Open(name) => open_tags.push(name.clone()),
            TagEvent::Bytes(content) => content_chunks.push(content.clone()),
            TagEvent::Close(name) => close_tags.push(name.clone()),
        }
    }

    println!("Open tags: {:?}", open_tags);
    println!("Content chunks: {:?}", content_chunks);
    println!("Close tags: {:?}", close_tags);

    assert!(
        open_tags.contains(&"OuterTag".to_string()),
        "OuterTag not opened"
    );
    assert!(
        open_tags.contains(&"WantedTag".to_string()),
        "WantedTag not opened"
    );
    assert!(
        !open_tags.contains(&"IgnoredTag".to_string()),
        "IgnoredTag should be ignored"
    );
    assert!(
        !open_tags.contains(&"UnwantedTag".to_string()),
        "UnwantedTag should be ignored"
    );

    let all_content = content_chunks.join("");
    assert!(
        all_content.contains("Some outer text"),
        "Missing outer text"
    );
    assert!(
        all_content.contains("More outer text"),
        "Missing text after ignored tag"
    );
    assert!(
        all_content.contains("This content should be processed"),
        "Missing wanted content"
    );
    assert!(
        !all_content.contains("This content should be completely ignored"),
        "Ignored content should not be present"
    );
    assert!(
        !all_content.contains("This content should be skipped"),
        "Unwanted content should not be present"
    );
}

#[test]
fn test_nested_tags_inside_ignored() {
    // Tags nested inside ignored tags are also ignored.
    let input = r#"<OuterTag>Start of content <IgnoredTag><AnotherTag>This should be ignored</AnotherTag></IgnoredTag> End of content</OuterTag>"#;

    let wanted = vec!["OuterTag".to_string()];
    let ignored = vec!["IgnoredTag".to_string()];

    let mut finder = TagFinder::new_with_filter(wanted, ignored);
    let mut events: Vec<TagEvent> = Vec::new();

    for event in finder.push(input) {
        println!("Event: {:?}", event);
        events.push(event);
    }

    let mut open_tags = Vec::new();
    let mut content = String::new();
    let mut close_tags = Vec::new();

    for event in &events {
        match event {
            TagEvent::Open(name) => open_tags.push(name.clone()),
            TagEvent::Bytes(text) => content.push_str(text),
            TagEvent::Close(name) => close_tags.push(name.clone()),
        }
    }

    println!("Open tags: {:?}", open_tags);
    println!("Content: {:?}", content);
    println!("Close tags: {:?}", close_tags);

    assert_eq!(open_tags.len(), 1, "Only one tag should be opened");
    assert_eq!(
        open_tags[0], "OuterTag",
        "OuterTag should be the only opened tag"
    );

    assert!(
        !open_tags.contains(&"AnotherTag".to_string()),
        "AnotherTag should be ignored"
    );

    assert!(
        content.contains("Start of content"),
        "Missing starting content"
    );
    assert!(content.contains("End of content"), "Missing ending content");
    assert!(
        !content.contains("This should be ignored"),
        "Ignored content should not be present"
    );

    assert_eq!(close_tags.len(), 1, "Only one tag should be closed");
    assert_eq!(
        close_tags[0], "OuterTag",
        "OuterTag should be the only closed tag"
    );
}

#[test]
fn test_wanted_tag_with_nested_content() {
    // Content in nested tags within a wanted tag is processed verbatim.
    let input = r#"<WantedTag>Outer content <NestedTag>Inner content</NestedTag> More outer content</WantedTag><UnwantedTag>Skip this</UnwantedTag>"#;

    let wanted = vec!["WantedTag".to_string()];
    let ignored = vec![];

    let mut finder = TagFinder::new_with_filter(wanted, ignored);
    let mut events: Vec<TagEvent> = Vec::new();

    for event in finder.push(input) {
        println!("Event: {:?}", event);
        events.push(event);
    }

    let mut open_tags = Vec::new();
    let mut content_chunks = Vec::new();
    let mut close_tags = Vec::new();

    for event in &events {
        match event {
            TagEvent::Open(name) => open_tags.push(name.clone()),
            TagEvent::Bytes(content) => content_chunks.push(content.clone()),
            TagEvent::Close(name) => close_tags.push(name.clone()),
        }
    }

    println!("Open tags: {:?}", open_tags);
    println!("Content chunks: {:?}", content_chunks);
    println!("Close tags: {:?}", close_tags);

    assert_eq!(open_tags.len(), 1, "Only one tag should be opened");
    assert_eq!(
        open_tags[0], "WantedTag",
        "WantedTag should be the only opened tag"
    );

    assert!(
        !open_tags.contains(&"UnwantedTag".to_string()),
        "UnwantedTag should be ignored"
    );

    let all_content = content_chunks.join("");
    assert!(
        all_content.contains("Outer content"),
        "Missing outer content"
    );
    assert!(
        all_content.contains("<NestedTag>"),
        "Missing nested tag opening"
    );
    assert!(
        all_content.contains("Inner content"),
        "Missing inner content"
    );
    assert!(
        all_content.contains("</NestedTag>"),
        "Missing nested tag closing"
    );
    assert!(
        all_content.contains("More outer content"),
        "Missing content after nested tag"
    );

    assert!(
        !all_content.contains("Skip this"),
        "Unwanted content should not be present"
    );

    assert_eq!(close_tags.len(), 1, "Only one tag should be closed");
    assert_eq!(
        close_tags[0], "WantedTag",
        "WantedTag should be the only closed tag"
    );
}
