use vstd::prelude::*;
use vstd::string::*;

use crate::files::{find_idx, last_slash, ArticleStore};
use crate::meta::{ArticleMeta, MetaView};

verus! {

// ---------------------------------------------------------------------------
// Page metadata: what the head of a rendered page says about it.
// ---------------------------------------------------------------------------

/// The metadata of one rendered page.
#[derive(Debug)]
pub struct PageMeta {
    pub title: String,
    pub description: String,
    pub keywords: String,
    pub image: Option<String>,
}

/// The page metadata that an article's metadata yields.
pub open spec fn page_meta_matches(r: PageMeta, m: MetaView) -> bool {
    &&& r.title@ == m.title
    &&& r.description@ == m.teaser
    &&& r.keywords@ == (match m.tags {
        Some(t) => t,
        None => Seq::<char>::empty(),
    })
    &&& match r.image {
        Some(i) => i@ == "https:/lommix.com/"@ + m.cover,
        None => false,
    }
}

/// The site's own page metadata, shown where no article matches.
pub open spec fn is_default_meta(r: PageMeta) -> bool {
    &&& r.title@ == "Lommix's Blog"@
    &&& r.description@
        == "Explore the intersection of game development and web development on my blog, featuring in-depth discussions and tutorials on cutting-edge technologies like Rust and Go. Enhance your coding experience with tips and tricks for Neovim, Ai, Game and Webdev."@
    &&& r.keywords@ == "Webdev, Rust, Gamedev, Blog"@
    &&& r.image is None
}

impl ArticleMeta {
    /// The page metadata of this article: its title, its teaser as the
    /// description, its tags as keywords, and its cover as the image.
    pub fn to_page_meta(&self) -> (r: PageMeta)
        ensures
            page_meta_matches(r, self@),
    {
        let keywords = match &self.tags {
            Some(t) => t.clone(),
            None => String::new(),
        };
        let mut image = "https:/lommix.com/".to_owned();
        image.append(self.cover.as_str());
        PageMeta {
            title: self.title.clone(),
            description: self.teaser.clone(),
            keywords,
            image: Some(image),
        }
    }
}

/// The site's own page metadata.
pub fn default_page_meta() -> (r: PageMeta)
    ensures
        is_default_meta(r),
{
    PageMeta {
        title: "Lommix's Blog".to_owned(),
        description:
            "Explore the intersection of game development and web development on my blog, featuring in-depth discussions and tutorials on cutting-edge technologies like Rust and Go. Enhance your coding experience with tips and tricks for Neovim, Ai, Game and Webdev.".to_owned(),
        keywords: "Webdev, Rust, Gamedev, Blog".to_owned(),
        image: None,
    }
}

/// How often a character occurs.
pub open spec fn count_char(s: Seq<char>, c: char) -> int
    decreases s.len(),
{
    if s.len() == 0 {
        0
    } else {
        let add: int = if s.last() == c {
            1
        } else {
            0
        };
        count_char(s.drop_last(), c) + add
    }
}

/// The article slug of a page path: what follows the '/' of a path of
/// exactly two segments.
pub open spec fn slug_of(p: Seq<char>) -> Option<Seq<char>> {
    if count_char(p, '/') == 1 {
        Some(p.subrange(last_slash(p) + 1, p.len() as int))
    } else {
        None
    }
}

/// The page metadata for a request path: the matching article's, when
/// the path has the shape of an article page and the alias is known;
/// the site's own otherwise.
pub fn meta_builder(page: Option<&str>, store: &ArticleStore) -> (r: PageMeta)
    ensures
        match page {
            None => is_default_meta(r),
            Some(p) => match slug_of(p@) {
                None => is_default_meta(r),
                Some(slug) => {
                    if find_idx(store@, slug) == -1 {
                        is_default_meta(r)
                    } else {
                        page_meta_matches(r, store@[find_idx(store@, slug)].meta)
                    }
                },
            },
        },
{
    let p = match page {
        Some(p) => p,
        None => {
            return default_page_meta();
        },
    };
    let n = p.unicode_len();
    let mut cnt: usize = 0;
    let mut pos: usize = 0;
    let mut k: usize = 0;
    proof {
        assert(p@.subrange(0, 0) =~= Seq::<char>::empty());
    }
    while k < n
        invariant
            k <= n,
            n == p@.len(),
            cnt <= k,
            cnt as int == count_char(p@.subrange(0, k as int), '/'),
            if cnt > 0 {
                last_slash(p@.subrange(0, k as int)) == pos && pos < k
            } else {
                last_slash(p@.subrange(0, k as int)) == -1
            },
        decreases n - k,
    {
        proof {
            assert(p@.subrange(0, k as int + 1).drop_last() =~= p@.subrange(0, k as int));
            assert(p@.subrange(0, k as int + 1).last() == p@[k as int]);
        }
        if p.get_char(k) == '/' {
            cnt += 1;
            pos = k;
        }
        k += 1;
    }
    proof {
        assert(p@.subrange(0, n as int) =~= p@);
    }
    if cnt != 1 {
        return default_page_meta();
    }
    let slug = p.substring_char(pos + 1, n);
    proof {
        assert(slug@ == p@.subrange(pos as int + 1, n as int));
    }
    match store.find_by_alias(slug) {
        Some(a) => a.meta.to_page_meta(),
        None => default_page_meta(),
    }
}

// ---------------------------------------------------------------------------
// Request-time failures of the page handlers.
// ---------------------------------------------------------------------------

/// What a handler answers when it cannot serve: a missing file, a
/// refused request, or its own failure (with its description).
#[derive(Debug)]
pub enum ErrorResponse {
    FileNotFound,
    Unauthorized,
    InternalServerError(String),
}

pub open spec fn error_status(e: ErrorResponse) -> int {
    match e {
        ErrorResponse::FileNotFound => 404,
        ErrorResponse::Unauthorized => 401,
        ErrorResponse::InternalServerError(_) => 500,
    }
}

pub open spec fn error_text(e: ErrorResponse) -> Seq<char> {
    match e {
        ErrorResponse::FileNotFound => "File not found"@,
        ErrorResponse::Unauthorized => "Unauthorized"@,
        ErrorResponse::InternalServerError(_) => "Internal server error"@,
    }
}

impl ErrorResponse {
    /// The HTTP status the response carries.
    pub fn status_code(&self) -> (r: u16)
        ensures
            r as int == error_status(*self),
    {
        match self {
            ErrorResponse::FileNotFound => 404,
            ErrorResponse::Unauthorized => 401,
            ErrorResponse::InternalServerError(_) => 500,
        }
    }

    /// The text the response carries.
    pub fn body_text(&self) -> (r: &'static str)
        ensures
            r@ == error_text(*self),
    {
        match self {
            ErrorResponse::FileNotFound => "File not found",
            ErrorResponse::Unauthorized => "Unauthorized",
            ErrorResponse::InternalServerError(_) => "Internal server error",
        }
    }
}

} // verus!
