use lommix_blog::dates::{parse_date, Date};
use lommix_blog::files::{ArticleStore, DirListing, FsFile, StoreError};
use lommix_blog::meta::{parse_meta, MetaError};

fn file(name: &str, content: Option<&str>) -> FsFile {
    FsFile { name: name.to_string(), content: content.map(|c| c.to_string()) }
}

fn listing(path: &str, files: Vec<FsFile>) -> DirListing {
    DirListing { path: path.to_string(), files }
}

fn meta_text(title: &str, alias: &str, published: &str) -> String {
    format!(
        "(\n    title: \"{}\",\n    alias: \"{}\",\n    cover: \"cover.png\",\n    tags: Some(\"rust,blog\"),\n    published: \"{}\",\n    teaser: \"a teaser\",\n)\n",
        title, alias, published
    )
}

fn two_post_root() -> Vec<DirListing> {
    vec![
        listing(
            "blog/post-a",
            vec![
                file("meta.ron", Some(&meta_text("Post A", "post-a", "01.01.2024"))),
                file("content.md", Some("# Post A\n\nbody a")),
                file("cover.png", None),
            ],
        ),
        listing(
            "blog/post-b",
            vec![
                file("meta.ron", Some(&meta_text("Post B", "post-b", "02.01.2024"))),
                file("content.md", Some("body b")),
                file("cover.png", None),
            ],
        ),
    ]
}

#[test]
fn scenario_two_posts_most_recent_first() {
    let store = ArticleStore::from_dir(two_post_root()).unwrap();
    assert_eq!(store.count(), 2);
    let articles = store.iter();
    assert_eq!(articles[0].meta.alias, "post-b");
    assert_eq!(articles[1].meta.alias, "post-a");
}

#[test]
fn scenario_incomplete_sibling_is_skipped() {
    let mut root = two_post_root();
    root.push(listing("blog/draft", vec![file("content.md", Some("only a body"))]));
    let store = ArticleStore::from_dir(root).unwrap();
    assert_eq!(store.count(), 2);
    assert!(store.find_by_alias("draft").is_none());
}

#[test]
fn count_is_number_of_valid_directories() {
    let mut root = two_post_root();
    // no body file: skipped
    root.push(listing(
        "blog/no-body",
        vec![file("meta.ron", Some(&meta_text("No Body", "no-body", "03.01.2024")))],
    ));
    // empty title: skipped
    root.push(listing(
        "blog/no-title",
        vec![
            file("meta.ron", Some(&meta_text("", "no-title", "03.01.2024"))),
            file("content.md", Some("body")),
        ],
    ));
    // media only: skipped
    root.push(listing("blog/assets", vec![file("logo.svg", None)]));
    let store = ArticleStore::from_dir(root).unwrap();
    assert_eq!(store.count(), 2);
}

#[test]
fn stable_order_among_equal_dates() {
    let root = vec![
        listing(
            "blog/first",
            vec![
                file("meta.ron", Some(&meta_text("First", "first", "05.05.2020"))),
                file("content.md", Some("a")),
            ],
        ),
        listing(
            "blog/second",
            vec![
                file("meta.ron", Some(&meta_text("Second", "second", "05.05.2020"))),
                file("content.md", Some("b")),
            ],
        ),
    ];
    let store = ArticleStore::from_dir(root).unwrap();
    let articles = store.iter();
    assert_eq!(articles[0].meta.alias, "first");
    assert_eq!(articles[1].meta.alias, "second");
}

#[test]
fn find_by_alias_hits_and_misses() {
    let store = ArticleStore::from_dir(two_post_root()).unwrap();
    let a = store.find_by_alias("post-a").unwrap();
    assert_eq!(a.meta.title, "Post A");
    assert!(store.find_by_alias("missing").is_none());
}

#[test]
fn compile_fills_html() {
    let store = ArticleStore::from_dir(two_post_root()).unwrap();
    let a = store.find_by_alias("post-a").unwrap();
    let html = a.compiled.as_ref().unwrap();
    assert!(html.contains("<h1>"));
    assert!(html.contains("Post A"));
}

#[test]
fn resolve_media_finds_gathered_files() {
    let store = ArticleStore::from_dir(two_post_root()).unwrap();
    let path = store.resolve_media("post-a", "cover.png").unwrap();
    assert_eq!(path.as_str(), "blog/post-a/cover.png");
    assert!(path.ends_with("/cover.png"));
    assert!(store.resolve_media("post-a", "other.png").is_none());
    assert!(store.resolve_media("missing", "cover.png").is_none());
}

#[test]
fn disallowed_extension_is_not_media() {
    let mut root = two_post_root();
    root[0].files.push(file("notes.txt", None));
    root[0].files.push(file("archive.gz", None));
    let store = ArticleStore::from_dir(root).unwrap();
    assert!(store.resolve_media("post-a", "notes.txt").is_none());
    assert_eq!(
        store.resolve_media("post-a", "archive.gz").unwrap().as_str(),
        "blog/post-a/archive.gz"
    );
}

#[test]
fn malformed_metadata_aborts_the_scan() {
    let mut root = two_post_root();
    root.push(listing(
        "blog/broken",
        vec![
            file("meta.ron", Some("this is not a record")),
            file("content.md", Some("body")),
        ],
    ));
    assert!(matches!(ArticleStore::from_dir(root), Err(StoreError::InvalidMetadata)));
}

#[test]
fn unreadable_metadata_aborts_the_scan() {
    let mut root = two_post_root();
    root.push(listing("blog/opaque", vec![file("meta.ron", None)]));
    assert!(matches!(ArticleStore::from_dir(root), Err(StoreError::InvalidMetadata)));
}

#[test]
fn bad_publish_date_aborts_the_scan() {
    let mut root = two_post_root();
    root.push(listing(
        "blog/bad-date",
        vec![
            file("meta.ron", Some(&meta_text("Bad", "bad", "31.02.2024"))),
            file("content.md", Some("body")),
        ],
    ));
    assert!(matches!(ArticleStore::from_dir(root), Err(StoreError::InvalidDate)));
}

#[test]
fn unreadable_body_of_valid_article_aborts_the_build() {
    let mut root = two_post_root();
    root.push(listing(
        "blog/unreadable",
        vec![
            file("meta.ron", Some(&meta_text("Unreadable", "unreadable", "03.01.2024"))),
            file("content.md", None),
        ],
    ));
    assert!(matches!(ArticleStore::from_dir(root), Err(StoreError::SourceUnreadable)));
}

#[test]
fn parse_meta_reads_a_full_record() {
    let m = parse_meta(&meta_text("Title", "alias-x", "7.3.2021")).unwrap();
    assert_eq!(m.title, "Title");
    assert_eq!(m.alias, "alias-x");
    assert_eq!(m.cover, "cover.png");
    assert_eq!(m.tags.as_deref(), Some("rust,blog"));
    assert_eq!(m.published, "7.3.2021");
    assert_eq!(m.teaser, "a teaser");
    assert_eq!(m.published_at, Date { year: 2021, month: 3, day: 7 });
}

#[test]
fn parse_meta_takes_fields_in_any_order_without_tags() {
    let text = "(teaser: \"t\", published: \"01.01.2000\", cover: \"c.png\", alias: \"a\", title: \"T\")";
    let m = parse_meta(text).unwrap();
    assert_eq!(m.title, "T");
    assert_eq!(m.tags, None);
    assert_eq!(m.published_at, Date { year: 2000, month: 1, day: 1 });
}

#[test]
fn parse_meta_accepts_a_named_record_and_none_tags() {
    let text = "ArticleMeta(title: \"T\", alias: \"a\", cover: \"c\", tags: None, published: \"2.2.2002\", teaser: \"s\")";
    let m = parse_meta(text).unwrap();
    assert_eq!(m.tags, None);
}

#[test]
fn parse_meta_decodes_escapes() {
    let text = "(title: \"a \\\"quoted\\\" name\\n\", alias: \"a\", cover: \"c\", published: \"1.1.2001\", teaser: \"s\")";
    let m = parse_meta(text).unwrap();
    assert_eq!(m.title, "a \"quoted\" name\n");
}

#[test]
fn parse_meta_rejects_malformed_records() {
    assert!(matches!(parse_meta("not a record"), Err(MetaError::InvalidMetadata)));
    assert!(matches!(parse_meta(""), Err(MetaError::InvalidMetadata)));
    // missing required field
    assert!(matches!(
        parse_meta("(title: \"T\", alias: \"a\", cover: \"c\", teaser: \"s\")"),
        Err(MetaError::InvalidMetadata)
    ));
    // repeated field
    assert!(matches!(
        parse_meta(
            "(title: \"T\", title: \"U\", alias: \"a\", cover: \"c\", published: \"1.1.2001\", teaser: \"s\")"
        ),
        Err(MetaError::InvalidMetadata)
    ));
    // unknown field
    assert!(matches!(
        parse_meta(
            "(title: \"T\", alias: \"a\", cover: \"c\", published: \"1.1.2001\", teaser: \"s\", extra: \"x\")"
        ),
        Err(MetaError::InvalidMetadata)
    ));
    // trailing text after the record
    assert!(matches!(
        parse_meta(
            "(title: \"T\", alias: \"a\", cover: \"c\", published: \"1.1.2001\", teaser: \"s\") trailing"
        ),
        Err(MetaError::InvalidMetadata)
    ));
}

#[test]
fn parse_meta_rejects_bad_dates() {
    assert!(matches!(
        parse_meta("(title: \"T\", alias: \"a\", cover: \"c\", published: \"2024-01-01\", teaser: \"s\")"),
        Err(MetaError::InvalidDate)
    ));
    assert!(matches!(
        parse_meta("(title: \"T\", alias: \"a\", cover: \"c\", published: \"29.2.2023\", teaser: \"s\")"),
        Err(MetaError::InvalidDate)
    ));
}

#[test]
fn parse_date_accepts_day_month_year() {
    assert_eq!(parse_date("01.01.2024"), Some(Date { year: 2024, month: 1, day: 1 }));
    assert_eq!(parse_date("1.1.2024"), Some(Date { year: 2024, month: 1, day: 1 }));
    assert_eq!(parse_date("29.02.2024"), Some(Date { year: 2024, month: 2, day: 29 }));
    assert_eq!(parse_date("31.12.0000"), Some(Date { year: 0, month: 12, day: 31 }));
}

#[test]
fn parse_date_rejects_what_is_no_date() {
    assert_eq!(parse_date("29.02.2023"), None);
    assert_eq!(parse_date("31.04.2024"), None);
    assert_eq!(parse_date("0.1.2024"), None);
    assert_eq!(parse_date("1.13.2024"), None);
    assert_eq!(parse_date("01-01-2024"), None);
    assert_eq!(parse_date("01.01.24"), None);
    assert_eq!(parse_date("001.1.2024"), None);
    assert_eq!(parse_date(""), None);
    assert_eq!(parse_date("1.1.20245"), None);
}

#[test]
fn date_ordering_follows_the_calendar() {
    let a = Date { year: 2024, month: 1, day: 2 };
    let b = Date { year: 2024, month: 1, day: 1 };
    let c = Date { year: 2023, month: 12, day: 31 };
    assert!(a.on_or_after(&b));
    assert!(b.on_or_after(&c));
    assert!(!c.on_or_after(&a));
    assert!(a.on_or_after(&a));
}

#[test]
fn article_validity_needs_body_title_and_alias() {
    let store = ArticleStore::from_dir(two_post_root()).unwrap();
    let a = store.find_by_alias("post-a").unwrap();
    assert!(a.valid());
}

#[test]
fn an_article_without_title_or_source_is_invalid() {
    let store = ArticleStore::from_dir(two_post_root()).unwrap();
    let good = store.find_by_alias("post-a").unwrap();
    let mut no_title = lommix_blog::files::Article {
        meta: good.meta.clone(),
        source: good.source.clone(),
        dir: good.dir.clone(),
        body: None,
        compiled: None,
        files: Vec::new(),
    };
    no_title.meta.title = String::new();
    assert!(!no_title.valid());

    let mut no_source = lommix_blog::files::Article {
        meta: good.meta.clone(),
        source: String::new(),
        dir: good.dir.clone(),
        body: None,
        compiled: None,
        files: Vec::new(),
    };
    no_source.meta.title = "t".to_string();
    assert!(!no_source.valid());
}

#[test]
fn fs_iter_yields_scanned_articles_from_the_end() {
    let mut it = lommix_blog::files::BlogFsIter::new(two_post_root()).unwrap();
    assert_eq!(it.files.len(), 2);
    assert_eq!(it.next().unwrap().meta.alias, "post-b");
    assert_eq!(it.next().unwrap().meta.alias, "post-a");
    assert!(it.next().is_none());
}

#[test]
fn an_empty_root_builds_an_empty_store() {
    let store = ArticleStore::from_dir(Vec::new()).unwrap();
    assert_eq!(store.count(), 0);
    assert!(store.find_by_alias("anything").is_none());
}
