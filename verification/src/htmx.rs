use vstd::prelude::*;
use vstd::string::*;

verus! {

// ---------------------------------------------------------------------------
// Page components and their router.
//
// Each page component contributes a route path, a stylesheet fragment
// and a script fragment.  The router folds a fixed list of components
// into one route table and one combined stylesheet and script.  The
// handlers themselves are HTTP glue and live with the server around the
// library.
// ---------------------------------------------------------------------------

/// One page component: a route path, a stylesheet fragment and a script
/// fragment.
pub trait HtmxComponent {
    spec fn spec_path() -> Seq<char>;

    spec fn spec_css() -> Seq<char>;

    spec fn spec_js() -> Seq<char>;

    fn path() -> (r: &'static str)
        ensures
            r@ == Self::spec_path(),
    ;

    fn css() -> (r: &'static str)
        ensures
            r@ == Self::spec_css(),
    ;

    fn js() -> (r: &'static str)
        ensures
            r@ == Self::spec_js(),
    ;
}

/// The route table and the combined style and script of the components
/// added so far.
pub struct HtmxRouter {
    pub routes: Vec<String>,
    pub css: String,
    pub js: String,
}

impl HtmxRouter {
    /// A router with no components.
    pub fn new() -> (r: HtmxRouter)
        ensures
            r.routes@ == Seq::<String>::empty(),
            r.css@ == Seq::<char>::empty(),
            r.js@ == Seq::<char>::empty(),
    {
        let r = HtmxRouter { routes: Vec::new(), css: String::new(), js: String::new() };
        r
    }

    /// Adds one component: its path joins the route table, its style and
    /// script join the combined fragments.
    pub fn add<T: HtmxComponent>(self, comp: T) -> (r: HtmxRouter)
        ensures
            r.css@ == self.css@ + T::spec_css(),
            r.js@ == self.js@ + T::spec_js(),
            r.routes@.len() == self.routes@.len() + 1,
            r.routes@[self.routes@.len() as int]@ == T::spec_path(),
            forall|k: int| 0 <= k < self.routes@.len() ==> r.routes@[k] == self.routes@[k],
    {
        let mut s = self;
        s.css.append(T::css());
        s.js.append(T::js());
        s.routes.push(T::path().to_owned());
        s
    }
}

pub struct HomeContent;

impl HtmxComponent for HomeContent {
    open spec fn spec_path() -> Seq<char> {
        "/home"@
    }

    open spec fn spec_css() -> Seq<char> {
        ""@
    }

    open spec fn spec_js() -> Seq<char> {
        ""@
    }

    fn path() -> (r: &'static str) {
        "/home"
    }

    fn css() -> (r: &'static str) {
        ""
    }

    fn js() -> (r: &'static str) {
        ""
    }
}

pub struct AboutContent;

impl HtmxComponent for AboutContent {
    open spec fn spec_path() -> Seq<char> {
        "/about"@
    }

    open spec fn spec_css() -> Seq<char> {
        ""@
    }

    open spec fn spec_js() -> Seq<char> {
        ""@
    }

    fn path() -> (r: &'static str) {
        "/about"
    }

    fn css() -> (r: &'static str) {
        ""
    }

    fn js() -> (r: &'static str) {
        ""
    }
}

pub struct BlogContent;

impl HtmxComponent for BlogContent {
    open spec fn spec_path() -> Seq<char> {
        "/blog"@
    }

    open spec fn spec_css() -> Seq<char> {
        ""@
    }

    open spec fn spec_js() -> Seq<char> {
        ""@
    }

    fn path() -> (r: &'static str) {
        "/blog"
    }

    fn css() -> (r: &'static str) {
        ""
    }

    fn js() -> (r: &'static str) {
        ""
    }
}

pub struct ArticleDetail;

impl HtmxComponent for ArticleDetail {
    open spec fn spec_path() -> Seq<char> {
        "/article/:alias"@
    }

    open spec fn spec_css() -> Seq<char> {
        ""@
    }

    open spec fn spec_js() -> Seq<char> {
        ""@
    }

    fn path() -> (r: &'static str) {
        "/article/:alias"
    }

    fn css() -> (r: &'static str) {
        ""
    }

    fn js() -> (r: &'static str) {
        ""
    }
}

pub struct ArticleList;

impl HtmxComponent for ArticleList {
    open spec fn spec_path() -> Seq<char> {
        "/articles/:limit/:offset"@
    }

    open spec fn spec_css() -> Seq<char> {
        ""@
    }

    open spec fn spec_js() -> Seq<char> {
        ""@
    }

    fn path() -> (r: &'static str) {
        "/articles/:limit/:offset"
    }

    fn css() -> (r: &'static str) {
        ""
    }

    fn js() -> (r: &'static str) {
        ""
    }
}

pub struct ContactContent;

impl HtmxComponent for ContactContent {
    open spec fn spec_path() -> Seq<char> {
        "/contact"@
    }

    open spec fn spec_css() -> Seq<char> {
        ""@
    }

    open spec fn spec_js() -> Seq<char> {
        ""@
    }

    fn path() -> (r: &'static str) {
        "/contact"
    }

    fn css() -> (r: &'static str) {
        ""
    }

    fn js() -> (r: &'static str) {
        ""
    }
}

pub struct Feedback;

impl HtmxComponent for Feedback {
    open spec fn spec_path() -> Seq<char> {
        "/feedback"@
    }

    open spec fn spec_css() -> Seq<char> {
        ""@
    }

    open spec fn spec_js() -> Seq<char> {
        ""@
    }

    fn path() -> (r: &'static str) {
        "/feedback"
    }

    fn css() -> (r: &'static str) {
        ""
    }

    fn js() -> (r: &'static str) {
        ""
    }
}

/// A tracked interaction: which action a visitor took.
#[derive(Debug)]
pub struct Interaction {
    pub action: String,
}

pub struct Track;

impl HtmxComponent for Track {
    open spec fn spec_path() -> Seq<char> {
        "/interact"@
    }

    open spec fn spec_css() -> Seq<char> {
        ""@
    }

    open spec fn spec_js() -> Seq<char> {
        ""@
    }

    fn path() -> (r: &'static str) {
        "/interact"
    }

    fn css() -> (r: &'static str) {
        ""
    }

    fn js() -> (r: &'static str) {
        ""
    }
}

/// The router of all page components, in their fixed order.
pub fn htmx_router() -> (r: HtmxRouter)
    ensures
        r.routes@.len() == 7,
        r.routes@[0]@ == ArticleDetail::spec_path(),
        r.routes@[1]@ == ArticleList::spec_path(),
        r.routes@[2]@ == HomeContent::spec_path(),
        r.routes@[3]@ == AboutContent::spec_path(),
        r.routes@[4]@ == BlogContent::spec_path(),
        r.routes@[5]@ == ContactContent::spec_path(),
        r.routes@[6]@ == Feedback::spec_path(),
        r.css@ == ArticleDetail::spec_css() + ArticleList::spec_css() + HomeContent::spec_css()
            + AboutContent::spec_css() + BlogContent::spec_css() + ContactContent::spec_css()
            + Feedback::spec_css(),
        r.js@ == ArticleDetail::spec_js() + ArticleList::spec_js() + HomeContent::spec_js()
            + AboutContent::spec_js() + BlogContent::spec_js() + ContactContent::spec_js()
            + Feedback::spec_js(),
{
    let r = HtmxRouter::new().add(ArticleDetail).add(ArticleList).add(HomeContent).add(
        AboutContent,
    ).add(BlogContent).add(ContactContent).add(Feedback);
    proof {
        assert(Seq::<char>::empty() + ArticleDetail::spec_css() =~= ArticleDetail::spec_css());
        assert(Seq::<char>::empty() + ArticleDetail::spec_js() =~= ArticleDetail::spec_js());
    }
    r
}

// ---------------------------------------------------------------------------
// The contact form.
// ---------------------------------------------------------------------------

/// What the contact form posts.
#[derive(Debug)]
pub struct ContactData {
    pub email: String,
    pub subject: String,
    pub message: String,
    pub csrf: String,
    pub captcha: String,
}

/// Why a contact post is turned away.
#[derive(Debug)]
pub enum ContactError {
    InvalidCaptcha,
    InvalidCsrf,
    NoMessage,
    InvalidEmail,
    Fuck(String),
}

impl ContactData {
    /// Turns a post away when a honeypot field is filled or the message
    /// is empty.  Whether the reply address parses is the mail layer's
    /// decision and is not judged here.
    pub fn validate(&self) -> (r: Result<(), ContactError>)
        ensures
            match r {
                Ok(()) => self.captcha@.len() == 0 && self.csrf@.len() == 0 && self.message@.len()
                    > 0,
                Err(ContactError::InvalidCaptcha) => self.captcha@.len() > 0,
                Err(ContactError::InvalidCsrf) => self.captcha@.len() == 0 && self.csrf@.len() > 0,
                Err(ContactError::NoMessage) => self.captcha@.len() == 0 && self.csrf@.len() == 0
                    && self.message@.len() == 0,
                Err(ContactError::InvalidEmail) => false,
                Err(ContactError::Fuck(_)) => false,
            },
    {
        if !self.captcha.as_str().is_empty() {
            return Err(ContactError::InvalidCaptcha);
        }
        if !self.csrf.as_str().is_empty() {
            return Err(ContactError::InvalidCsrf);
        }
        if self.message.as_str().is_empty() {
            return Err(ContactError::NoMessage);
        }
        Ok(())
    }
}

} // verus!
