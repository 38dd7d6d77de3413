use lommix_blog::files::{ArticleStore, DirListing, FsFile};
use lommix_blog::forms::{sanatize, FeedbackData, FeedbackError};
use lommix_blog::htmx::{htmx_router, ContactData, ContactError, HtmxComponent, HtmxRouter, Track};
use lommix_blog::markdown::compile_markdown;
use lommix_blog::meta::parse_meta;
use lommix_blog::pages::{default_page_meta, meta_builder, ErrorResponse};

fn post_root() -> Vec<DirListing> {
    let meta = "(title: \"Post A\", alias: \"post-a\", cover: \"cover.png\", tags: Some(\"rust\"), published: \"01.01.2024\", teaser: \"the teaser\")";
    vec![DirListing {
        path: "blog/post-a".to_string(),
        files: vec![
            FsFile { name: "meta.ron".to_string(), content: Some(meta.to_string()) },
            FsFile { name: "content.md".to_string(), content: Some("body".to_string()) },
        ],
    }]
}

#[test]
fn strikethrough_markdown_round_trip() {
    let html = compile_markdown("~~gone~~");
    assert!(html.contains("<del>gone</del>"));
}

#[test]
fn markdown_compiles_headings_and_paragraphs() {
    let html = compile_markdown("# Title\n\nSome *text*.");
    assert!(html.contains("<h1>"));
    assert!(html.contains("<em>text</em>"));
}

#[test]
fn article_compile_is_idempotent_per_body() {
    let mut a = {
        let store = ArticleStore::from_dir(post_root()).unwrap();
        let mut articles = store.0;
        articles.remove(0)
    };
    let first = a.compiled.clone().unwrap();
    a.compile().unwrap();
    assert_eq!(a.compiled.unwrap(), first);
}

#[test]
fn sanatize_masks_what_is_not_allowed() {
    assert_eq!(sanatize("hello world!"), "hello world!");
    assert_eq!(sanatize("a.b@c(d),-+!?:"), "a.b@c(d),-+!?:");
    assert_eq!(sanatize("hello <b>!"), "hello *b*!");
    assert_eq!(sanatize("x=y;z"), "x*y*z");
    assert_eq!(sanatize(""), "");
    assert_eq!(sanatize("ümläut ok"), "ümläut ok");
}

#[test]
fn feedback_validation_judges_each_field() {
    let ok = FeedbackData {
        message: "hi".to_string(),
        csrf: String::new(),
        captcha: String::new(),
    };
    assert!(ok.validate().is_ok());

    let captcha = FeedbackData {
        message: "hi".to_string(),
        csrf: String::new(),
        captcha: "bot".to_string(),
    };
    assert!(matches!(captcha.validate(), Err(FeedbackError::InvalidCaptcha)));

    let csrf = FeedbackData {
        message: "hi".to_string(),
        csrf: "x".to_string(),
        captcha: String::new(),
    };
    assert!(matches!(csrf.validate(), Err(FeedbackError::InvalidCsrf)));

    let empty = FeedbackData {
        message: String::new(),
        csrf: String::new(),
        captcha: String::new(),
    };
    assert!(matches!(empty.validate(), Err(FeedbackError::NoMessage)));
}

#[test]
fn feedback_record_prefixes_a_separator() {
    let data = FeedbackData {
        message: "nice <blog>".to_string(),
        csrf: String::new(),
        captcha: String::new(),
    };
    assert_eq!(
        data.feedback_record(),
        "\n-----------------------------------\nnice *blog*"
    );
}

#[test]
fn contact_validation_judges_each_field() {
    let ok = ContactData {
        email: "a@b.c".to_string(),
        subject: "s".to_string(),
        message: "hello".to_string(),
        csrf: String::new(),
        captcha: String::new(),
    };
    assert!(ok.validate().is_ok());

    let captcha = ContactData {
        email: "a@b.c".to_string(),
        subject: "s".to_string(),
        message: "hello".to_string(),
        csrf: String::new(),
        captcha: "bot".to_string(),
    };
    assert!(matches!(captcha.validate(), Err(ContactError::InvalidCaptcha)));

    let csrf = ContactData {
        email: "a@b.c".to_string(),
        subject: "s".to_string(),
        message: "hello".to_string(),
        csrf: "t".to_string(),
        captcha: String::new(),
    };
    assert!(matches!(csrf.validate(), Err(ContactError::InvalidCsrf)));

    let empty = ContactData {
        email: "a@b.c".to_string(),
        subject: "s".to_string(),
        message: String::new(),
        csrf: String::new(),
        captcha: String::new(),
    };
    assert!(matches!(empty.validate(), Err(ContactError::NoMessage)));
}

#[test]
fn router_folds_components_in_order() {
    let r = htmx_router();
    let paths: Vec<&str> = r.routes.iter().map(|p| p.as_str()).collect();
    assert_eq!(
        paths,
        vec![
            "/article/:alias",
            "/articles/:limit/:offset",
            "/home",
            "/about",
            "/blog",
            "/contact",
            "/feedback",
        ]
    );
    assert_eq!(r.css, "");
    assert_eq!(r.js, "");
}

#[test]
fn router_add_appends_path_and_fragments() {
    let r = HtmxRouter::new().add(Track);
    assert_eq!(r.routes.len(), 1);
    assert_eq!(r.routes[0], Track::path());
    assert_eq!(Track::path(), "/interact");
}

#[test]
fn meta_builder_uses_the_matching_article() {
    let store = ArticleStore::from_dir(post_root()).unwrap();
    let meta = meta_builder(Some("article/post-a"), &store);
    assert_eq!(meta.title, "Post A");
    assert_eq!(meta.description, "the teaser");
    assert_eq!(meta.keywords, "rust");
    assert_eq!(meta.image.as_deref(), Some("https:/lommix.com/cover.png"));
}

#[test]
fn meta_builder_falls_back_to_the_site_meta() {
    let store = ArticleStore::from_dir(post_root()).unwrap();
    let default = default_page_meta();

    let none = meta_builder(None, &store);
    assert_eq!(none.title, default.title);
    assert_eq!(none.image, None);

    let missing = meta_builder(Some("article/other"), &store);
    assert_eq!(missing.title, default.title);

    let deep = meta_builder(Some("a/b/c"), &store);
    assert_eq!(deep.title, default.title);

    let flat = meta_builder(Some("about"), &store);
    assert_eq!(flat.title, default.title);
}

#[test]
fn page_meta_without_tags_has_no_keywords() {
    let meta = parse_meta(
        "(title: \"T\", alias: \"a\", cover: \"c.png\", published: \"1.1.2001\", teaser: \"s\")",
    )
    .unwrap();
    let page = meta.to_page_meta();
    assert_eq!(page.keywords, "");
    assert_eq!(page.title, "T");
    assert_eq!(page.description, "s");
    assert_eq!(page.image.as_deref(), Some("https:/lommix.com/c.png"));
}

#[test]
fn error_responses_carry_status_and_text() {
    assert_eq!(ErrorResponse::FileNotFound.status_code(), 404);
    assert_eq!(ErrorResponse::FileNotFound.body_text(), "File not found");
    assert_eq!(ErrorResponse::Unauthorized.status_code(), 401);
    assert_eq!(ErrorResponse::Unauthorized.body_text(), "Unauthorized");
    let internal = ErrorResponse::InternalServerError("boom".to_string());
    assert_eq!(internal.status_code(), 500);
    assert_eq!(internal.body_text(), "Internal server error");
}
