use news_cli::config::{classify_override, default_feeds, str_has_prefix, OverrideKind};
use news_cli::group::{build_menu, build_source_labels, stories_for_source, MenuRow};
use news_cli::feed::{RawEntry, RawLink};
use news_cli::ingest::{collect_from_payload, collect_stories, story_links, FetchedPayload,
    PayloadData, SourceError};
use news_cli::model::{Feed, SeenStories, Story};
use news_cli::normalize::{normalize_link, open_url_allowed, resolve_base};
use news_cli::dedup::{dedup_stories_by_link, sort_stories_by_link};

fn rss_payload(channel: &str, items: &[(&str, &str)]) -> Vec<u8> {
    let mut xml = String::new();
    xml.push_str("<rss version=\"2.0\"><channel><title>");
    xml.push_str(channel);
    xml.push_str("</title>");
    for (title, link) in items {
        xml.push_str("<item><title>");
        xml.push_str(title);
        xml.push_str("</title><link>");
        xml.push_str(link);
        xml.push_str("</link></item>");
    }
    xml.push_str("</channel></rss>");
    xml.into_bytes()
}

fn parse_entries(bytes: &[u8]) -> Option<Vec<RawEntry>> {
    match feed_rs::parser::parse(bytes) {
        Ok(feed) => Some(
            feed.entries
                .into_iter()
                .map(|e| RawEntry {
                    title: e.title.map(|t| t.content),
                    links: e
                        .links
                        .into_iter()
                        .map(|l| RawLink { href: l.href, rel: l.rel })
                        .collect(),
                })
                .collect(),
        ),
        Err(_) => None,
    }
}

// mirrors the fetch layer: payloads over the cap are not parsed at all
fn payload_data(bytes: &[u8]) -> PayloadData {
    let cap: usize = 5 * 1024 * 1024;
    let entries = if bytes.len() <= cap { parse_entries(bytes) } else { None };
    PayloadData { len: bytes.len(), entries }
}

fn story(title: &str, link: &str, source: &str, is_new: bool) -> Story {
    Story {
        title: title.to_string(),
        link: link.to_string(),
        source: source.to_string(),
        is_new,
    }
}

#[test]
fn normalization_determinism() {
    assert_eq!(
        normalize_link("/a/b", Some("https://x.com/p/")),
        Some("https://x.com/a/b".to_string())
    );
    assert_eq!(
        normalize_link("https://y.com/z", Some("https://x.com/p/")),
        Some("https://y.com/z".to_string())
    );
    assert_eq!(normalize_link("ftp://y.com/z", None), None);
    assert_eq!(normalize_link("", Some("https://x.com/p/")), None);
    assert_eq!(normalize_link("   ", Some("https://x.com/p/")), None);
    assert_eq!(normalize_link("rel/path", None), None);
    assert_eq!(normalize_link("mailto:a@b.com", None), None);
}

#[test]
fn normalization_canonicalizes() {
    // the url crate lowercases scheme and host: the result differs from the
    // raw candidate
    assert_eq!(
        normalize_link("HTTPS://EX.com/Path", None),
        Some("https://ex.com/Path".to_string())
    );
}

#[test]
fn resolve_base_canonical_text() {
    assert_eq!(
        resolve_base("https://EX.com"),
        Some("https://ex.com/".to_string())
    );
    assert_eq!(resolve_base("not a url"), None);
}

#[test]
fn open_url_scheme_validation() {
    assert!(open_url_allowed("https://ex.com/a"));
    assert!(open_url_allowed("http://ex.com/a"));
    assert!(!open_url_allowed("javascript:alert(1)"));
    assert!(!open_url_allowed("ftp://ex.com/a"));
    assert!(!open_url_allowed("nonsense"));
}

#[test]
fn size_cap_rejects_over_and_accepts_exact() {
    let seen = SeenStories::new();
    let cap: usize = 5 * 1024 * 1024;

    let over = vec![b' '; cap + 1];
    let r = collect_from_payload(&payload_data(&over), "S", None, &seen);
    assert_eq!(r, Err(SourceError::TooLarge));

    let mut exact = rss_payload("S", &[("T1", "https://ex.com/u1")]);
    assert!(exact.len() < cap);
    let pad = cap - exact.len();
    exact.extend(std::iter::repeat(b' ').take(pad));
    assert_eq!(exact.len(), cap);
    let r = collect_from_payload(&payload_data(&exact), "S", None, &seen);
    let stories = r.expect("payload of exactly the cap must be accepted");
    assert_eq!(stories.len(), 1);
    assert_eq!(stories[0].link, "https://ex.com/u1");
}

#[test]
fn unparsable_payload_reports_parse_failure() {
    let seen = SeenStories::new();
    let garbage = b"this is not a feed at all".to_vec();
    let r = collect_from_payload(&payload_data(&garbage), "S", None, &seen);
    assert_eq!(r, Err(SourceError::ParseFailed));
}

#[test]
fn entry_rules_title_and_link_selection() {
    let seen = SeenStories::new();
    // an entry without a title gets the placeholder
    let payload = rss_payload("S", &[("", "https://ex.com/u1")]);
    let stories = collect_from_payload(&payload_data(&payload), "S", None, &seen).unwrap();
    assert_eq!(stories.len(), 1);
    // feed-rs reports an empty <title> element as an empty title string
    assert!(stories[0].title.is_empty() || stories[0].title == "(untitled)");
    // the configured source name labels the story, not the feed's own title
    assert_eq!(stories[0].source, "S");
}

#[test]
fn relative_links_resolve_against_base() {
    let seen = SeenStories::new();
    let payload = rss_payload("S", &[("T1", "/page/1")]);
    let base = resolve_base("https://host.example").unwrap();
    let stories = collect_from_payload(&payload_data(&payload), "S", Some(&base), &seen).unwrap();
    assert_eq!(stories.len(), 1);
    assert_eq!(stories[0].link, "https://host.example/page/1");
    // without a base the relative link is dropped
    let stories = collect_from_payload(&payload_data(&payload), "S", None, &seen).unwrap();
    assert_eq!(stories.len(), 0);
}

#[test]
fn new_flag_correctness() {
    let mut seen = SeenStories::new();
    seen.mark_as_seen("https://ex.com/u1");
    let payload = rss_payload(
        "S",
        &[("T1", "https://ex.com/u1"), ("T2", "https://ex.com/u2")],
    );
    let stories = collect_from_payload(&payload_data(&payload), "S", None, &seen).unwrap();
    assert_eq!(stories.len(), 2);
    for s in &stories {
        if s.link == "https://ex.com/u1" {
            assert!(!s.is_new);
        } else {
            assert_eq!(s.link, "https://ex.com/u2");
            assert!(s.is_new);
        }
    }
}

#[test]
fn dedup_idempotence() {
    let v = vec![
        story("a", "https://ex.com/2", "A", true),
        story("b", "https://ex.com/1", "B", true),
        story("c", "https://ex.com/2", "C", true),
        story("d", "https://ex.com/1", "A", true),
        story("e", "https://ex.com/3", "B", true),
        story("f", "https://ex.com/2", "A", true),
    ];
    let once = dedup_stories_by_link(sort_stories_by_link(v));
    let links: Vec<&str> = once.iter().map(|s| s.link.as_str()).collect();
    assert_eq!(
        links,
        vec!["https://ex.com/1", "https://ex.com/2", "https://ex.com/3"]
    );
    // the surviving story for each link is the first occurrence
    assert_eq!(once[0].title, "b");
    assert_eq!(once[1].title, "a");
    assert_eq!(once[2].title, "e");
    let twice = dedup_stories_by_link(sort_stories_by_link(once.clone()));
    assert_eq!(twice, once);
}

#[test]
fn grouping_order_follows_configuration() {
    let feeds = vec![
        Feed { name: "alpha".to_string(), url: "x".to_string() },
        Feed { name: "beta".to_string(), url: "y".to_string() },
    ];
    // fetched data arrives with beta's stories first
    let stories = vec![
        story("tb", "https://ex.com/b", "beta", false),
        story("ta", "https://ex.com/a", "alpha", false),
    ];
    let menu = build_menu(&feeds, &stories);
    assert_eq!(menu.labels.len(), 4);
    assert_eq!(menu.labels[0], "== ALPHA == (1 entries)");
    assert_eq!(menu.labels[1], "  - ta");
    assert_eq!(menu.labels[2], "== BETA == (1 entries)");
    assert_eq!(menu.labels[3], "  - tb");
    assert_eq!(menu.header_indices, vec![0, 2]);
    assert!(matches!(&menu.rows[0], MenuRow::Header(s) if s == "alpha"));
    assert!(matches!(&menu.rows[1], MenuRow::Entry(s, 0) if s == "alpha"));
}

#[test]
fn grouping_appends_unconfigured_sources() {
    let feeds = vec![Feed { name: "alpha".to_string(), url: "x".to_string() }];
    let stories = vec![
        story("tz", "https://ex.com/z", "stray", true),
        story("ta", "https://ex.com/a", "alpha", false),
    ];
    let menu = build_menu(&feeds, &stories);
    assert_eq!(menu.labels[0], "== ALPHA == (1 entries)");
    assert_eq!(menu.labels[2], "== STRAY == (1 entries)");
    assert_eq!(menu.labels[3], "  - [NEW] tz");
    let group = stories_for_source(&stories, "stray");
    let labels = build_source_labels(&group);
    assert_eq!(labels, vec!["[NEW] tz".to_string()]);
}

#[test]
fn grouping_caps_menu_entries_at_ten() {
    let feeds = vec![Feed { name: "a".to_string(), url: "x".to_string() }];
    let mut stories = Vec::new();
    for i in 0..12 {
        stories.push(story(
            &format!("t{}", i),
            &format!("https://ex.com/{}", i),
            "a",
            false,
        ));
    }
    let menu = build_menu(&feeds, &stories);
    // one header plus ten capped entries; the count still shows all twelve
    assert_eq!(menu.labels.len(), 11);
    assert_eq!(menu.labels[0], "== A == (12 entries)");
    // the drill-down view is uncapped
    let group = stories_for_source(&stories, "a");
    assert_eq!(group.len(), 12);
    let labels = build_source_labels(&group);
    assert_eq!(labels.len(), 12);
    assert_eq!(labels[0], "t0");
}

#[test]
fn end_to_end_two_sources() {
    let mut seen = SeenStories::new();
    seen.mark_as_seen("https://ex.com/u1");
    let feeds = vec![
        Feed { name: "A".to_string(), url: "a.xml".to_string() },
        Feed { name: "B".to_string(), url: "b.xml".to_string() },
    ];
    let payloads = vec![
        FetchedPayload {
            payload: Some(payload_data(&rss_payload(
                "feed a",
                &[
                    ("t1", "https://ex.com/u1"),
                    ("t2", "https://ex.com/u2"),
                    ("t3", "https://ex.com/u3"),
                ],
            ))),
            remote: false,
        },
        FetchedPayload {
            payload: Some(payload_data(&rss_payload(
                "feed b",
                &[
                    ("t4", "https://ex.com/u4"),
                    ("t5", "https://ex.com/u5"),
                    ("dup", "https://ex.com/u2"),
                ],
            ))),
            remote: false,
        },
    ];
    let outcome = collect_stories(&feeds, &payloads, &seen);
    assert!(outcome.issues.is_empty());
    assert_eq!(outcome.stories.len(), 5);
    for s in &outcome.stories {
        if s.link == "https://ex.com/u1" {
            assert!(!s.is_new);
        } else {
            assert!(s.is_new);
        }
    }
    // the duplicate of u2 keeps its first occurrence, which came from A
    let u2 = outcome
        .stories
        .iter()
        .find(|s| s.link == "https://ex.com/u2")
        .unwrap();
    assert_eq!(u2.source, "A");
    assert_eq!(u2.title, "t2");

    let menu = build_menu(&feeds, &outcome.stories);
    assert_eq!(menu.header_indices.len(), 2);
    let h0 = menu.header_indices[0];
    let h1 = menu.header_indices[1];
    assert_eq!(menu.labels[h0], "== A == (3 entries)");
    assert_eq!(menu.labels[h1], "== B == (2 entries)");

    let links = story_links(&outcome.stories);
    assert_eq!(links.len(), 5);
    assert!(links.contains(&"https://ex.com/u4".to_string()));
}

#[test]
fn failed_sources_are_reported_and_isolated() {
    let seen = SeenStories::new();
    let feeds = vec![
        Feed { name: "bad".to_string(), url: "bad.xml".to_string() },
        Feed { name: "good".to_string(), url: "good.xml".to_string() },
        Feed { name: "gone".to_string(), url: "gone.xml".to_string() },
    ];
    let payloads = vec![
        FetchedPayload { payload: Some(payload_data(b"not xml")), remote: false },
        FetchedPayload {
            payload: Some(payload_data(&rss_payload("g", &[("t", "https://ex.com/g")]))),
            remote: false,
        },
        FetchedPayload { payload: None, remote: true },
    ];
    let outcome = collect_stories(&feeds, &payloads, &seen);
    assert_eq!(outcome.stories.len(), 1);
    assert_eq!(outcome.stories[0].source, "good");
    assert_eq!(outcome.issues.len(), 1);
    assert_eq!(outcome.issues[0].source, "bad");
    assert_eq!(outcome.issues[0].error, SourceError::ParseFailed);
}

#[test]
fn seen_store_roundtrip() {
    let mut seen = SeenStories::new();
    assert!(!seen.is_seen("https://ex.com/a"));
    seen.mark_as_seen("https://ex.com/a");
    assert!(seen.is_seen("https://ex.com/a"));
    assert!(!seen.is_seen("https://ex.com/b"));
    seen.mark_as_seen("https://ex.com/a");
    assert_eq!(seen.links().len(), 1);
}

#[test]
fn override_classification() {
    assert_eq!(classify_override("conf.toml", true), OverrideKind::TomlConfig);
    assert_eq!(classify_override("CONF.TOML", true), OverrideKind::TomlConfig);
    assert_eq!(classify_override("feed.xml", true), OverrideKind::LocalFeed);
    assert_eq!(
        classify_override("https://ex.com/feed", false),
        OverrideKind::RemoteFeed
    );
    assert_eq!(
        classify_override("http://ex.com/feed", false),
        OverrideKind::RemoteFeed
    );
    assert_eq!(classify_override("nonsense", false), OverrideKind::Unusable);
    assert!(str_has_prefix("https://a", "https://"));
    assert!(!str_has_prefix("ftp://a", "https://"));
}

#[test]
fn default_configuration_feeds() {
    let feeds = default_feeds();
    assert_eq!(feeds.len(), 2);
    assert_eq!(feeds[0].name, "HN Front");
    assert_eq!(feeds[0].url, "https://hnrss.org/frontpage");
    assert_eq!(feeds[1].name, "BBC World");
    assert_eq!(feeds[1].url, "https://feeds.bbci.co.uk/news/world/rss.xml");
}
