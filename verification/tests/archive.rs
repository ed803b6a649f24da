use ba_search::archive::{archive_links, archive_plan, archive_would_fail_to_read, ArchiveError, LinkType};

#[test]
fn relationship_story_range() {
    let plan = archive_plan(
        "https://bluearchive.wiki/wiki/Natsu/Relationship_Story/{}",
        None,
        4,
        None,
        None,
    )
    .unwrap();
    assert_eq!(plan.start, 1);
    assert_eq!(plan.increment, 1);
    assert_eq!(plan.format, "{}");
    assert_eq!(plan.link_type.as_text(), "Natsu");
    assert_eq!(plan.link_type.as_volume(), None);
    let links = archive_links(&plan);
    assert_eq!(
        links,
        vec![
            "https://bluearchive.wiki/wiki/Natsu/Relationship_Story/1".to_string(),
            "https://bluearchive.wiki/wiki/Natsu/Relationship_Story/2".to_string(),
            "https://bluearchive.wiki/wiki/Natsu/Relationship_Story/3".to_string(),
            "https://bluearchive.wiki/wiki/Natsu/Relationship_Story/4".to_string(),
        ]
    );
}

#[test]
fn main_story_link() {
    let plan = archive_plan(
        "  https://bluearchive.wiki/wiki/Main_Story/Volume_2/Chapter_2/Episode_{}  ",
        Some(3),
        9,
        Some(3),
        None,
    )
    .unwrap();
    assert_eq!(plan.link, "https://bluearchive.wiki/wiki/Main_Story/Volume_2/Chapter_2/Episode_{}");
    assert_eq!(plan.link_type.as_volume(), Some(("Volume_2", "Chapter_2")));
    assert_eq!(plan.link_type.as_text(), "Volume_2");
    let links = archive_links(&plan);
    assert_eq!(links.len(), 3);
    assert!(links[0].ends_with("Episode_3"));
    assert!(links[1].ends_with("Episode_6"));
    assert!(links[2].ends_with("Episode_9"));
}

#[test]
fn event_story_link_with_format() {
    let plan = archive_plan(
        "https://bluearchive.wiki/wiki/Some_Event/Story/NUM",
        Some(10),
        12,
        None,
        Some(" NUM ".to_string()),
    )
    .unwrap();
    assert_eq!(plan.format, "NUM");
    match &plan.link_type {
        LinkType::Event(name) => assert_eq!(&**name, "Some_Event"),
        other => panic!("unexpected {:?}", other),
    }
    let links = archive_links(&plan);
    assert_eq!(
        links,
        vec![
            "https://bluearchive.wiki/wiki/Some_Event/Story/10".to_string(),
            "https://bluearchive.wiki/wiki/Some_Event/Story/11".to_string(),
            "https://bluearchive.wiki/wiki/Some_Event/Story/12".to_string(),
        ]
    );
}

#[test]
fn empty_range_gives_no_links() {
    let plan = archive_plan("https://x/wiki/A/Story/{}", Some(5), 4, None, None).unwrap();
    assert!(archive_links(&plan).is_empty());
}

#[test]
fn range_near_the_top_of_usize() {
    let plan = archive_plan(
        "https://x/wiki/A/Story/{}",
        Some(usize::MAX - 1),
        usize::MAX,
        Some(2),
        None,
    )
    .unwrap();
    let links = archive_links(&plan);
    assert_eq!(links, vec![format!("https://x/wiki/A/Story/{}", usize::MAX - 1)]);
}

#[test]
fn refusals_in_order() {
    assert_eq!(archive_plan("   ", None, 1, None, None).err(), Some(ArchiveError::EmptyLink));
    assert_eq!(
        archive_plan("https://x/wiki/A/Story/1", None, 1, None, None).err(),
        Some(ArchiveError::MissingFormat)
    );
    assert_eq!(
        archive_plan("https://x/wiki/A/Story/{}", None, 1, Some(0), None).err(),
        Some(ArchiveError::ZeroIncrement)
    );
    assert_eq!(
        archive_plan("https://x/wiki/A/Story/{}", None, 1, None, Some("  ".to_string())).err(),
        Some(ArchiveError::EmptyFormat)
    );
    assert_eq!(
        archive_plan("https://x/wiki/A/Page/{}", None, 1, None, None).err(),
        Some(ArchiveError::UnknownLinkType)
    );
}

#[test]
fn malformed_links_are_reported() {
    assert!(archive_would_fail_to_read("https://x/A/Relationship_Story/{}", None, &None));
    assert!(archive_would_fail_to_read("https://x/wiki/Volume_1/Chapter_1/{}", None, &None));
    assert!(archive_would_fail_to_read("https://x/wiki/Story{}", None, &None));
    assert!(!archive_would_fail_to_read("https://x/wiki/A/Story/{}", None, &None));
    // A refused argument comes first.
    assert!(!archive_would_fail_to_read("https://x/wiki/Story{}", Some(0), &None));
}
