use vstd::prelude::*;
use vstd::string::*;

use crate::markdown::{compile_markdown, html_of};
use crate::meta::{
    lemma_spec_parse_meta_ok, parse_meta, spec_parse_meta, ArticleMeta, MetaError, MetaView,
};
use crate::text::str_eq;

verus! {

// ---------------------------------------------------------------------------
// The content tree, as data.
//
// The scanner works on plain values: the surrounding program walks the
// content root and hands over one listing per directory, in discovery
// order, with the text of the record and body files it could read.
// ---------------------------------------------------------------------------

/// One file of a directory: its name and, for text files that could be
/// read, its contents.
pub struct FsFile {
    pub name: String,
    pub content: Option<String>,
}

pub struct FsFileView {
    pub name: Seq<char>,
    pub content: Option<Seq<char>>,
}

impl View for FsFile {
    type V = FsFileView;

    open spec fn view(&self) -> FsFileView {
        FsFileView {
            name: self.name@,
            content: match self.content {
                Some(c) => Some(c@),
                None => None,
            },
        }
    }
}

/// One directory of the content tree: its path and its files.
pub struct DirListing {
    pub path: String,
    pub files: Vec<FsFile>,
}

pub struct DirListingView {
    pub path: Seq<char>,
    pub files: Seq<FsFileView>,
}

impl View for DirListing {
    type V = DirListingView;

    open spec fn view(&self) -> DirListingView {
        DirListingView {
            path: self.path@,
            files: self.files@.map_values(|f: FsFile| f@),
        }
    }
}

/// A media file of an article: its bare name and its full path.
pub struct MediaEntry {
    pub name: String,
    pub path: String,
}

pub struct MediaView {
    pub name: Seq<char>,
    pub path: Seq<char>,
}

impl View for MediaEntry {
    type V = MediaView;

    open spec fn view(&self) -> MediaView {
        MediaView { name: self.name@, path: self.path@ }
    }
}

// ---------------------------------------------------------------------------
// File classification.
// ---------------------------------------------------------------------------

/// Index of the last '.' of a name, or -1.
pub open spec fn last_dot(s: Seq<char>) -> int
    decreases s.len(),
{
    if s.len() == 0 {
        -1
    } else if s.last() == '.' {
        s.len() - 1
    } else {
        last_dot(s.drop_last())
    }
}

/// The extension of a file name: what follows the last '.', unless the
/// name has no '.' or starts with its only '.'.
pub open spec fn ext_of(s: Seq<char>) -> Option<Seq<char>> {
    let p = last_dot(s);
    if p <= 0 {
        None
    } else {
        Some(s.subrange(p + 1, s.len() as int))
    }
}

/// The media extensions an article may bundle.
pub open spec fn is_allowed_ext(e: Seq<char>) -> bool {
    ||| e == "jpg"@
    ||| e == "jpeg"@
    ||| e == "svg"@
    ||| e == "gz"@
    ||| e == "png"@
    ||| e == "gif"@
    ||| e == "webm"@
    ||| e == "wasm"@
    ||| e == "js"@
    ||| e == "css"@
    ||| e == "html"@
    ||| e == "ico"@
}

/// A name names a media file when its extension is on the allow-list.
pub open spec fn is_media_name(s: Seq<char>) -> bool {
    match ext_of(s) {
        Some(e) => is_allowed_ext(e),
        None => false,
    }
}

/// Whether the file name carries an extension of the allow-list.
pub fn media_name(name: &str) -> (r: bool)
    ensures
        r == is_media_name(name@),
{
    let n = name.unicode_len();
    let mut k: usize = 0;
    let mut found = false;
    let mut pos: usize = 0;
    proof {
        assert(name@.subrange(0, 0) =~= Seq::<char>::empty());
    }
    while k < n
        invariant
            k <= n,
            n == name@.len(),
            if found {
                last_dot(name@.subrange(0, k as int)) == pos && pos < k
            } else {
                last_dot(name@.subrange(0, k as int)) == -1
            },
        decreases n - k,
    {
        proof {
            assert(name@.subrange(0, k as int + 1).drop_last() =~= name@.subrange(0, k as int));
            assert(name@.subrange(0, k as int + 1).last() == name@[k as int]);
        }
        if name.get_char(k) == '.' {
            found = true;
            pos = k;
        }
        k += 1;
    }
    proof {
        assert(name@.subrange(0, n as int) =~= name@);
    }
    if !found || pos == 0 {
        return false;
    }
    let e = name.substring_char(pos + 1, n);
    proof {
        assert(e@ == name@.subrange(pos as int + 1, n as int));
    }
    str_eq(e, "jpg") || str_eq(e, "jpeg") || str_eq(e, "svg") || str_eq(e, "gz") || str_eq(
        e,
        "png",
    ) || str_eq(e, "gif") || str_eq(e, "webm") || str_eq(e, "wasm") || str_eq(e, "js") || str_eq(
        e,
        "css",
    ) || str_eq(e, "html") || str_eq(e, "ico")
}

// ---------------------------------------------------------------------------
// Gathering one directory's bundle.
// ---------------------------------------------------------------------------

/// What a directory has yielded so far: at most one metadata record, at
/// most one body file, and the media files seen.
pub struct BundleView {
    pub meta: Option<MetaView>,
    pub has_body: bool,
    pub body: Option<Seq<char>>,
    pub media: Seq<MediaView>,
}

pub open spec fn empty_bundle() -> BundleView {
    BundleView { meta: None, has_body: false, body: None, media: Seq::empty() }
}

/// First index of a media entry with the given name, or -1.
pub open spec fn media_idx(ms: Seq<MediaView>, name: Seq<char>) -> int
    decreases ms.len(),
{
    if ms.len() == 0 {
        -1
    } else if ms[0].name == name {
        0
    } else {
        let r = media_idx(ms.drop_first(), name);
        if r == -1 {
            -1
        } else {
            r + 1
        }
    }
}

/// Adds a media file, replacing an entry of the same name.
pub open spec fn media_put(ms: Seq<MediaView>, m: MediaView) -> Seq<MediaView> {
    let i = media_idx(ms, m.name);
    if i == -1 {
        ms.push(m)
    } else {
        ms.update(i, m)
    }
}

/// The full path of a file inside a directory.
pub open spec fn joined(dir: Seq<char>, name: Seq<char>) -> Seq<char> {
    dir + "/"@ + name
}

/// Folds one file of a directory into the bundle.
pub open spec fn apply_fs_file(dir: Seq<char>, b: BundleView, f: FsFileView) -> Result<
    BundleView,
    MetaError,
> {
    if f.name == "meta.ron"@ {
        match f.content {
            None => Err(MetaError::InvalidMetadata),
            Some(c) => match spec_parse_meta(c) {
                Err(e) => Err(e),
                Ok(m) => Ok(BundleView { meta: Some(m), ..b }),
            },
        }
    } else if f.name == "content.md"@ {
        Ok(BundleView { has_body: true, body: f.content, ..b })
    } else if is_media_name(f.name) {
        Ok(
            BundleView {
                media: media_put(b.media, MediaView { name: f.name, path: joined(dir, f.name) }),
                ..b
            },
        )
    } else {
        Ok(b)
    }
}

/// The bundle of a directory: its files folded left to right.
pub open spec fn scan_files(dir: Seq<char>, files: Seq<FsFileView>) -> Result<
    BundleView,
    MetaError,
>
    decreases files.len(),
{
    if files.len() == 0 {
        Ok(empty_bundle())
    } else {
        match scan_files(dir, files.drop_last()) {
            Err(e) => Err(e),
            Ok(b) => apply_fs_file(dir, b, files.last()),
        }
    }
}

/// A bundle makes an article when it has a body file and a metadata
/// record with non-empty title and alias.
pub open spec fn bundle_valid(b: BundleView) -> bool {
    &&& b.has_body
    &&& match b.meta {
        Some(m) => m.title.len() > 0 && m.alias.len() > 0,
        None => false,
    }
}

// ---------------------------------------------------------------------------
// Articles.
// ---------------------------------------------------------------------------

/// Failures that abort building the article store.
#[derive(Clone, Copy, Debug, PartialEq, Eq, Structural)]
pub enum StoreError {
    /// A metadata record file could not be read or decoded.
    InvalidMetadata,
    /// A metadata record carries a published field that denotes no
    /// calendar date.
    InvalidDate,
    /// A valid article's body file could not be read.
    SourceUnreadable,
}

pub open spec fn store_err(e: MetaError) -> StoreError {
    match e {
        MetaError::InvalidMetadata => StoreError::InvalidMetadata,
        MetaError::InvalidDate => StoreError::InvalidDate,
    }
}

/// One article: its metadata, the paths of its body file and directory,
/// the body text, the compiled HTML once built, and its media files.
pub struct Article {
    pub meta: ArticleMeta,
    pub source: String,
    pub dir: String,
    pub body: Option<String>,
    pub compiled: Option<String>,
    pub files: Vec<MediaEntry>,
}

pub struct ArticleView {
    pub meta: MetaView,
    pub source: Seq<char>,
    pub dir: Seq<char>,
    pub body: Option<Seq<char>>,
    pub compiled: Option<Seq<char>>,
    pub files: Seq<MediaView>,
}

pub open spec fn media_seq_view(s: Seq<MediaEntry>) -> Seq<MediaView> {
    s.map_values(|m: MediaEntry| m@)
}

impl View for Article {
    type V = ArticleView;

    open spec fn view(&self) -> ArticleView {
        ArticleView {
            meta: self.meta@,
            source: self.source@,
            dir: self.dir@,
            body: match self.body {
                Some(b) => Some(b@),
                None => None,
            },
            compiled: match self.compiled {
                Some(c) => Some(c@),
                None => None,
            },
            files: media_seq_view(self.files@),
        }
    }
}

impl Article {
    /// An article is valid when a body file was found and both title and
    /// alias are non-empty.
    pub fn valid(&self) -> (r: bool)
        ensures
            r == article_valid(self@),
    {
        !self.source.as_str().is_empty() && !self.meta.title.as_str().is_empty()
            && !self.meta.alias.as_str().is_empty()
    }

    /// Compiles the article's body to HTML, storing the fragment.
    pub fn compile(&mut self) -> (r: Result<(), StoreError>)
        ensures
            match old(self).body {
                None => r == Err::<(), StoreError>(StoreError::SourceUnreadable) && *final(self)
                    == *old(self),
                Some(b) => r == Ok::<(), StoreError>(()) && final(self)@ == (ArticleView {
                    compiled: Some(html_of(b@)),
                    ..old(self)@
                }),
            },
    {
        match &self.body {
            None => Err(StoreError::SourceUnreadable),
            Some(b) => {
                let html = compile_markdown(b.as_str());
                self.compiled = Some(html);
                Ok(())
            },
        }
    }
}

pub open spec fn article_valid(a: ArticleView) -> bool {
    a.source.len() > 0 && a.meta.title.len() > 0 && a.meta.alias.len() > 0
}

/// The article that a valid bundle of a directory yields.
pub open spec fn article_of_bundle(dir: Seq<char>, b: BundleView) -> ArticleView {
    ArticleView {
        meta: match b.meta {
            Some(m) => m,
            None => arbitrary(),
        },
        source: joined(dir, "content.md"@),
        dir: dir,
        body: b.body,
        compiled: None,
        files: b.media,
    }
}

/// What one directory contributes: an article, nothing, or a fatal error.
pub open spec fn listing_result(l: DirListingView) -> Result<Option<ArticleView>, MetaError> {
    match scan_files(l.path, l.files) {
        Err(e) => Err(e),
        Ok(b) => {
            if bundle_valid(b) {
                Ok(Some(article_of_bundle(l.path, b)))
            } else {
                Ok(None)
            }
        },
    }
}

/// The articles of all listings, in discovery order.
pub open spec fn scan_spec(ls: Seq<DirListingView>) -> Result<Seq<ArticleView>, MetaError>
    decreases ls.len(),
{
    if ls.len() == 0 {
        Ok(Seq::empty())
    } else {
        match scan_spec(ls.drop_last()) {
            Err(e) => Err(e),
            Ok(arts) => match listing_result(ls.last()) {
                Err(e) => Err(e),
                Ok(Some(a)) => Ok(arts.push(a)),
                Ok(None) => Ok(arts),
            },
        }
    }
}

/// A scan that has failed stays failed under more files.
pub proof fn lemma_scan_files_err_extend(dir: Seq<char>, fs1: Seq<FsFileView>, fs2: Seq<FsFileView>)
    requires
        scan_files(dir, fs1) is Err,
    ensures
        scan_files(dir, fs1 + fs2) == scan_files(dir, fs1),
    decreases fs2.len(),
{
    if fs2.len() == 0 {
        assert(fs1 + fs2 =~= fs1);
    } else {
        lemma_scan_files_err_extend(dir, fs1, fs2.drop_last());
        assert((fs1 + fs2).drop_last() =~= fs1 + fs2.drop_last());
        assert((fs1 + fs2).len() > 0);
    }
}

/// A directory's bundle, gathered.
struct Bundle {
    meta: Option<ArticleMeta>,
    has_body: bool,
    body: Option<String>,
    media: Vec<MediaEntry>,
}

impl View for Bundle {
    type V = BundleView;

    closed spec fn view(&self) -> BundleView {
        BundleView {
            meta: match self.meta {
                Some(m) => Some(m@),
                None => None,
            },
            has_body: self.has_body,
            body: match self.body {
                Some(b) => Some(b@),
                None => None,
            },
            media: media_seq_view(self.media@),
        }
    }
}

/// The path of a file inside a directory.
fn join_path(dir: &str, name: &str) -> (r: String)
    ensures
        r@ == joined(dir@, name@),
{
    let mut p = dir.to_owned();
    p.append("/");
    p.append(name);
    p
}

/// First index of a media entry with the given name, when there is one.
proof fn lemma_media_idx(ms: Seq<MediaView>, name: Seq<char>)
    ensures
        media_idx(ms, name) == -1 ==> forall|k: int|
            0 <= k < ms.len() ==> (#[trigger] ms[k]).name != name,
        media_idx(ms, name) != -1 ==> {
            &&& 0 <= media_idx(ms, name) < ms.len()
            &&& ms[media_idx(ms, name)].name == name
            &&& forall|k: int| 0 <= k < media_idx(ms, name) ==> (#[trigger] ms[k]).name != name
        },
    decreases ms.len(),
{
    if ms.len() > 0 && ms[0].name != name {
        lemma_media_idx(ms.drop_first(), name);
        assert forall|k: int| 1 <= k < ms.len() implies (#[trigger] ms[k]) == ms.drop_first()[k
            - 1] by {}
    }
}

/// Adds a media file to the bundle, replacing an entry of the same name.
fn media_insert(ms: &mut Vec<MediaEntry>, m: MediaEntry)
    ensures
        media_seq_view(final(ms)@) == media_put(media_seq_view(old(ms)@), m@),
{
    let ghost msv = media_seq_view(ms@);
    let mut i: usize = 0;
    while i < ms.len()
        invariant
            i <= ms@.len(),
            ms@ == old(ms)@,
            msv == media_seq_view(ms@),
            forall|k: int| 0 <= k < i ==> msv[k].name != m@.name,
        decreases ms@.len() - i,
    {
        proof {
            assert(msv[i as int] == ms@[i as int]@);
        }
        if str_eq(ms[i].name.as_str(), m.name.as_str()) {
            proof {
                lemma_media_idx(msv, m@.name);
                assert(media_idx(msv, m@.name) == i as int);
            }
            let ghost before = ms@;
            let _ = ms.remove(i);
            ms.insert(i, m);
            proof {
                vstd::seq_lib::lemma_update_is_remove_insert(before, i as int, m);
                assert(ms@ =~= before.update(i as int, m));
                assert(media_put(msv, m@) == msv.update(i as int, m@));
                assert(media_seq_view(ms@) =~= msv.update(i as int, m@)) by {
                    assert forall|k: int| 0 <= k < ms@.len() implies media_seq_view(ms@)[k]
                        == msv.update(i as int, m@)[k] by {
                        assert(media_seq_view(ms@)[k] == ms@[k]@);
                        assert(msv[k] == before[k]@);
                        if k != i as int {
                            assert(ms@[k] == before[k]);
                        }
                    }
                }
            }
            return ;
        }
        i += 1;
    }
    proof {
        lemma_media_idx(msv, m@.name);
        assert(media_idx(msv, m@.name) == -1);
    }
    ms.push(m);
    proof {
        assert(media_seq_view(ms@) =~= media_put(msv, m@)) by {
            assert(ms@ =~= old(ms)@.push(m));
            assert forall|k: int| 0 <= k < ms@.len() implies media_seq_view(ms@)[k] == media_put(
                msv,
                m@,
            )[k] by {
                assert(media_seq_view(ms@)[k] == ms@[k]@);
                if k < msv.len() {
                    assert(ms@[k] == old(ms)@[k]);
                    assert(msv[k] == old(ms)@[k]@);
                }
            }
        }
    }
}

/// Gathers one directory's bundle from its files.
fn scan_dir(l: &DirListing) -> (r: Result<Bundle, MetaError>)
    ensures
        match r {
            Ok(b) => scan_files(l@.path, l@.files) == Ok::<BundleView, MetaError>(b@),
            Err(e) => scan_files(l@.path, l@.files) == Err::<BundleView, MetaError>(e),
        },
{
    let ghost fsv = l@.files;
    let mut cur = Bundle { meta: None, has_body: false, body: None, media: Vec::new() };
    let mut k: usize = 0;
    proof {
        assert(fsv.subrange(0, 0) =~= Seq::<FsFileView>::empty());
        assert(media_seq_view(Seq::<MediaEntry>::empty()) =~= Seq::<MediaView>::empty());
        assert(cur@ == empty_bundle());
    }
    while k < l.files.len()
        invariant
            k <= l.files@.len(),
            fsv == l@.files,
            fsv.len() == l.files@.len(),
            scan_files(l@.path, fsv.subrange(0, k as int)) == Ok::<BundleView, MetaError>(cur@),
        decreases l.files@.len() - k,
    {
        let ghost prefix = fsv.subrange(0, k as int);
        let ghost fv = fsv[k as int];
        proof {
            assert(fv == l.files@[k as int]@);
            assert(fsv.subrange(0, k as int + 1).drop_last() =~= prefix);
            assert(fsv.subrange(0, k as int + 1).last() == fv);
        }
        let f = &l.files[k];
        if str_eq(f.name.as_str(), "meta.ron") {
            match &f.content {
                None => {
                    proof {
                        assert(scan_files(l@.path, fsv.subrange(0, k as int + 1)) == Err::<
                            BundleView,
                            MetaError,
                        >(MetaError::InvalidMetadata));
                        lemma_scan_files_err_extend(
                            l@.path,
                            fsv.subrange(0, k as int + 1),
                            fsv.subrange(k as int + 1, fsv.len() as int),
                        );
                        assert(fsv.subrange(0, k as int + 1) + fsv.subrange(
                            k as int + 1,
                            fsv.len() as int,
                        ) =~= fsv);
                    }
                    return Err(MetaError::InvalidMetadata);
                },
                Some(c) => {
                    match parse_meta(c.as_str()) {
                        Ok(m) => {
                            proof {
                                lemma_spec_parse_meta_ok(c@, m@);
                            }
                            cur.meta = Some(m);
                        },
                        Err(e) => {
                            proof {
                                assert(spec_parse_meta(c@) == Err::<MetaView, MetaError>(e));
                                assert(scan_files(l@.path, fsv.subrange(0, k as int + 1))
                                    == Err::<BundleView, MetaError>(e));
                                lemma_scan_files_err_extend(
                                    l@.path,
                                    fsv.subrange(0, k as int + 1),
                                    fsv.subrange(k as int + 1, fsv.len() as int),
                                );
                                assert(fsv.subrange(0, k as int + 1) + fsv.subrange(
                                    k as int + 1,
                                    fsv.len() as int,
                                ) =~= fsv);
                            }
                            return Err(e);
                        },
                    }
                },
            }
        } else if str_eq(f.name.as_str(), "content.md") {
            cur.has_body = true;
            cur.body = match &f.content {
                Some(c) => Some(c.clone()),
                None => None,
            };
        } else if media_name(f.name.as_str()) {
            let path = join_path(l.path.as_str(), f.name.as_str());
            media_insert(&mut cur.media, MediaEntry { name: f.name.clone(), path });
        } else {
        }
        k += 1;
    }
    proof {
        assert(fsv.subrange(0, fsv.len() as int) =~= fsv);
    }
    Ok(cur)
}

// ---------------------------------------------------------------------------
// Ordering the articles: a stable sort, most recent first.
//
// Each scanned article is paired with its discovery index; the pairs are
// ordered by publish date descending, and among equal dates by discovery
// index ascending, which makes the arrangement unique.
// ---------------------------------------------------------------------------

/// Sort order of the store: `a` comes no later than `b`.
pub open spec fn pair_le(a: (int, ArticleView), b: (int, ArticleView)) -> bool {
    let ka = a.1.meta.published_at.key();
    let kb = b.1.meta.published_at.key();
    ka > kb || (ka == kb && a.0 <= b.0)
}

pub open spec fn sorted_pairs(s: Seq<(int, ArticleView)>) -> bool {
    forall|i: int, j: int| 0 <= i < j < s.len() ==> pair_le(#[trigger] s[i], #[trigger] s[j])
}

/// Inserts a pair behind every pair that comes no later.
pub open spec fn insert_sorted(s: Seq<(int, ArticleView)>, x: (int, ArticleView)) -> Seq<
    (int, ArticleView),
>
    decreases s.len(),
{
    if s.len() == 0 {
        seq![x]
    } else if pair_le(s[0], x) {
        seq![s[0]] + insert_sorted(s.drop_first(), x)
    } else {
        seq![x] + s
    }
}

/// The pairs, arranged in store order: an insertion sort, left to right.
pub open spec fn sort_pairs_spec(s: Seq<(int, ArticleView)>) -> Seq<(int, ArticleView)>
    decreases s.len(),
{
    if s.len() == 0 {
        Seq::empty()
    } else {
        insert_sorted(sort_pairs_spec(s.drop_last()), s.last())
    }
}

/// The articles, each paired with its discovery index.
pub open spec fn enum_pairs(s: Seq<ArticleView>) -> Seq<(int, ArticleView)> {
    Seq::new(s.len(), |i: int| (i, s[i]))
}

/// Where an insertion lands when the first `p` pairs come no later than
/// `x` and the one after them, if any, does not.
pub proof fn lemma_insert_sorted_at(s: Seq<(int, ArticleView)>, x: (int, ArticleView), p: int)
    requires
        0 <= p <= s.len(),
        forall|k: int| 0 <= k < p ==> pair_le(#[trigger] s[k], x),
        p < s.len() ==> !pair_le(s[p], x),
    ensures
        insert_sorted(s, x) == s.subrange(0, p) + seq![x] + s.subrange(p, s.len() as int),
    decreases p,
{
    if p == 0 {
        if s.len() == 0 {
            assert(insert_sorted(s, x) =~= s.subrange(0, 0) + seq![x] + s.subrange(0, 0));
        } else {
            assert(!pair_le(s[0], x));
            assert(insert_sorted(s, x) =~= s.subrange(0, 0) + seq![x] + s.subrange(
                0,
                s.len() as int,
            ));
        }
    } else {
        assert(pair_le(s[0], x));
        let df = s.drop_first();
        assert forall|k: int| 0 <= k < p - 1 implies pair_le(#[trigger] df[k], x) by {
            assert(df[k] == s[k + 1]);
        }
        assert(p - 1 < df.len() ==> !pair_le(df[p - 1], x)) by {
            if p - 1 < df.len() {
                assert(df[p - 1] == s[p as int]);
            }
        }
        lemma_insert_sorted_at(df, x, p - 1);
        assert(insert_sorted(s, x) == seq![s[0]] + insert_sorted(df, x));
        assert(insert_sorted(s, x) =~= s.subrange(0, p) + seq![x] + s.subrange(
            p,
            s.len() as int,
        )) by {
            assert(insert_sorted(df, x) == df.subrange(0, p - 1) + seq![x] + df.subrange(
                p - 1,
                df.len() as int,
            ));
            assert forall|k: int| 0 <= k < df.len() implies df[k] == s[k + 1] by {}
        }
    }
}

/// What an insertion holds: the new pair and the old ones.
pub proof fn lemma_insert_sorted_contains(
    s: Seq<(int, ArticleView)>,
    x: (int, ArticleView),
    y: (int, ArticleView),
)
    ensures
        insert_sorted(s, x).contains(y) <==> (s.contains(y) || y == x),
    decreases s.len(),
{
    if s.len() == 0 {
        assert(insert_sorted(s, x)[0] == x);
        if s.contains(y) {
            let i = choose|i: int| 0 <= i < s.len() && s[i] == y;
            assert(false);
        }
    } else if pair_le(s[0], x) {
        let df = s.drop_first();
        lemma_insert_sorted_contains(df, x, y);
        let t = insert_sorted(s, x);
        assert(t == seq![s[0]] + insert_sorted(df, x));
        if t.contains(y) {
            let i = choose|i: int| 0 <= i < t.len() && t[i] == y;
            if i == 0 {
                assert(s[0] == y);
                assert(s.contains(y));
            } else {
                assert(insert_sorted(df, x)[i - 1] == y);
                assert(insert_sorted(df, x).contains(y));
                if df.contains(y) {
                    let j = choose|j: int| 0 <= j < df.len() && df[j] == y;
                    assert(s[j + 1] == y);
                    assert(s.contains(y));
                }
            }
        }
        if s.contains(y) {
            let i = choose|i: int| 0 <= i < s.len() && s[i] == y;
            if i == 0 {
                assert(t[0] == y);
            } else {
                assert(df[i - 1] == y);
                assert(df.contains(y));
                assert(insert_sorted(df, x).contains(y));
                let j = choose|j: int| 0 <= j < insert_sorted(df, x).len() && insert_sorted(
                    df,
                    x,
                )[j] == y;
                assert(t[j + 1] == y);
            }
            assert(t.contains(y));
        }
        if y == x {
            assert(insert_sorted(df, x).contains(y));
            let j = choose|j: int| 0 <= j < insert_sorted(df, x).len() && insert_sorted(df, x)[j]
                == y;
            assert(t[j + 1] == y);
            assert(t.contains(y));
        }
    } else {
        let t = insert_sorted(s, x);
        assert(t == seq![x] + s);
        if t.contains(y) {
            let i = choose|i: int| 0 <= i < t.len() && t[i] == y;
            if i > 0 {
                assert(s[i - 1] == y);
                assert(s.contains(y));
            }
        }
        if s.contains(y) {
            let i = choose|i: int| 0 <= i < s.len() && s[i] == y;
            assert(t[i + 1] == y);
            assert(t.contains(y));
        }
        if y == x {
            assert(t[0] == y);
            assert(t.contains(y));
        }
    }
}

/// Sorting keeps exactly the pairs it was given.
pub proof fn lemma_sort_pairs_contains(s: Seq<(int, ArticleView)>, y: (int, ArticleView))
    ensures
        sort_pairs_spec(s).contains(y) <==> s.contains(y),
    decreases s.len(),
{
    if s.len() == 0 {
        if s.contains(y) {
            let i = choose|i: int| 0 <= i < s.len() && s[i] == y;
            assert(false);
        }
        if sort_pairs_spec(s).contains(y) {
            let i = choose|i: int| 0 <= i < sort_pairs_spec(s).len() && sort_pairs_spec(s)[i] == y;
            assert(false);
        }
    } else {
        let dl = s.drop_last();
        lemma_sort_pairs_contains(dl, y);
        lemma_insert_sorted_contains(sort_pairs_spec(dl), s.last(), y);
        if s.contains(y) {
            let i = choose|i: int| 0 <= i < s.len() && s[i] == y;
            if i < s.len() - 1 {
                assert(dl[i] == y);
                assert(dl.contains(y));
            } else {
                assert(y == s.last());
            }
        }
        if dl.contains(y) {
            let i = choose|i: int| 0 <= i < dl.len() && dl[i] == y;
            assert(s[i] == y);
            assert(s.contains(y));
        }
        if y == s.last() {
            assert(s[s.len() - 1] == y);
            assert(s.contains(y));
        }
    }
}

pub proof fn lemma_insert_sorted_len(s: Seq<(int, ArticleView)>, x: (int, ArticleView))
    ensures
        insert_sorted(s, x).len() == s.len() + 1,
    decreases s.len(),
{
    if s.len() > 0 && pair_le(s[0], x) {
        lemma_insert_sorted_len(s.drop_first(), x);
    }
}

pub proof fn lemma_sort_pairs_len(s: Seq<(int, ArticleView)>)
    ensures
        sort_pairs_spec(s).len() == s.len(),
    decreases s.len(),
{
    if s.len() > 0 {
        lemma_sort_pairs_len(s.drop_last());
        lemma_insert_sorted_len(sort_pairs_spec(s.drop_last()), s.last());
    }
}

/// Inserting into a sorted arrangement keeps it sorted.
pub proof fn lemma_insert_sorted_sorted(s: Seq<(int, ArticleView)>, x: (int, ArticleView))
    requires
        sorted_pairs(s),
    ensures
        sorted_pairs(insert_sorted(s, x)),
    decreases s.len(),
{
    if s.len() == 0 {
    } else if pair_le(s[0], x) {
        let df = s.drop_first();
        assert forall|i: int, j: int| 0 <= i < j < df.len() implies pair_le(
            #[trigger] df[i],
            #[trigger] df[j],
        ) by {
            assert(df[i] == s[i + 1]);
            assert(df[j] == s[j + 1]);
        }
        lemma_insert_sorted_sorted(df, x);
        let t = insert_sorted(df, x);
        let r = insert_sorted(s, x);
        assert(r == seq![s[0]] + t);
        assert forall|i: int, j: int| 0 <= i < j < r.len() implies pair_le(
            #[trigger] r[i],
            #[trigger] r[j],
        ) by {
            if i == 0 {
                assert(r[0] == s[0]);
                assert(r[j] == t[j - 1]);
                lemma_insert_sorted_contains(df, x, t[j - 1]);
                assert(t.contains(t[j - 1]));
                if df.contains(t[j - 1]) {
                    let k = choose|k: int| 0 <= k < df.len() && df[k] == t[j - 1];
                    assert(df[k] == s[k + 1]);
                    assert(pair_le(s[0], s[k + 1]));
                } else {
                    assert(t[j - 1] == x);
                }
            } else {
                assert(r[i] == t[i - 1]);
                assert(r[j] == t[j - 1]);
            }
        }
    } else {
        let r = insert_sorted(s, x);
        assert(r == seq![x] + s);
        assert(pair_le(x, s[0]));
        assert forall|i: int, j: int| 0 <= i < j < r.len() implies pair_le(
            #[trigger] r[i],
            #[trigger] r[j],
        ) by {
            if i == 0 {
                assert(r[j] == s[j - 1]);
                if j - 1 > 0 {
                    assert(pair_le(s[0], s[j - 1]));
                }
            } else {
                assert(r[i] == s[i - 1]);
                assert(r[j] == s[j - 1]);
            }
        }
    }
}

/// The sorted arrangement is sorted.
pub proof fn lemma_sort_pairs_sorted(s: Seq<(int, ArticleView)>)
    ensures
        sorted_pairs(sort_pairs_spec(s)),
    decreases s.len(),
{
    if s.len() > 0 {
        lemma_sort_pairs_sorted(s.drop_last());
        lemma_insert_sorted_sorted(sort_pairs_spec(s.drop_last()), s.last());
    }
}

pub open spec fn pairs_view(s: Seq<(usize, Article)>) -> Seq<(int, ArticleView)> {
    s.map_values(|p: (usize, Article)| (p.0 as int, p.1@))
}


/// Whether `a` comes no later than `b` in store order.
fn pair_before(a: &(usize, Article), b: &(usize, Article)) -> (r: bool)
    ensures
        r == pair_le((a.0 as int, a.1@), (b.0 as int, b.1@)),
{
    let ka = a.1.meta.published_at.key_val();
    let kb = b.1.meta.published_at.key_val();
    ka > kb || (ka == kb && a.0 <= b.0)
}

/// Arranges the indexed articles in store order.
fn sort_pairs(arr: Vec<(usize, Article)>) -> (r: Vec<(usize, Article)>)
    ensures
        pairs_view(r@) == sort_pairs_spec(pairs_view(arr@)),
{
    let ghost pv0 = pairs_view(arr@);
    let mut arr = arr;
    let mut out: Vec<(usize, Article)> = Vec::new();
    let ghost mut t: int = 0;
    proof {
        assert(pv0.subrange(0, 0) =~= Seq::<(int, ArticleView)>::empty());
        assert(pairs_view(out@) =~= Seq::<(int, ArticleView)>::empty());
        assert(pairs_view(arr@) =~= pv0.subrange(0, pv0.len() as int));
    }
    while arr.len() > 0
        invariant
            0 <= t <= pv0.len(),
            pairs_view(arr@) == pv0.subrange(t, pv0.len() as int),
            pairs_view(out@) == sort_pairs_spec(pv0.subrange(0, t)),
        decreases arr@.len(),
    {
        let ghost arr_prev = arr@;
        let x = arr.remove(0);
        let ghost xv = (x.0 as int, x.1@);
        proof {
            assert(pairs_view(arr_prev).len() == arr_prev.len());
            assert(arr_prev.len() > 0);
            assert(pairs_view(arr_prev) == pv0.subrange(t, pv0.len() as int));
            assert(t < pv0.len());
            assert(pv0.subrange(t, pv0.len() as int)[0] == pv0[t]);
            assert(pairs_view(arr_prev)[0] == xv);
            assert(xv == pv0[t]);
            assert(pairs_view(arr@) =~= pv0.subrange(t + 1, pv0.len() as int)) by {
                assert forall|k: int| 0 <= k < arr@.len() implies pairs_view(arr@)[k] == pv0[t + 1
                    + k] by {
                    assert(arr@[k] == arr_prev[k + 1]);
                    assert(pairs_view(arr_prev)[k + 1] == pv0.subrange(t, pv0.len() as int)[k + 1]);
                }
            }
        }
        let mut p: usize = 0;
        while p < out.len() && pair_before(&out[p], &x)
            invariant
                p <= out@.len(),
                0 <= t <= pv0.len(),
                xv == (x.0 as int, x.1@),
                pairs_view(out@) == sort_pairs_spec(pv0.subrange(0, t)),
                forall|k: int| 0 <= k < p ==> pair_le(#[trigger] pairs_view(out@)[k], xv),
            decreases out@.len() - p,
        {
            proof {
                assert(pairs_view(out@)[p as int] == (out@[p as int].0 as int, out@[p as int].1@));
            }
            p += 1;
        }
        proof {
            if p < out.len() {
                assert(pairs_view(out@)[p as int] == (out@[p as int].0 as int, out@[p as int].1@));
            }
            lemma_insert_sorted_at(pairs_view(out@), xv, p as int);
        }
        let ghost out_prev = out@;
        out.insert(p, x);
        proof {
            assert(pairs_view(out@) =~= insert_sorted(pairs_view(out_prev), xv)) by {
                assert(insert_sorted(pairs_view(out_prev), xv) == pairs_view(out_prev).subrange(
                    0,
                    p as int,
                ) + seq![xv] + pairs_view(out_prev).subrange(
                    p as int,
                    pairs_view(out_prev).len() as int,
                ));
                assert(out@ == out_prev.insert(p as int, x));
                assert forall|k: int| 0 <= k < out@.len() implies pairs_view(out@)[k]
                    == insert_sorted(pairs_view(out_prev), xv)[k] by {
                    if k < p {
                        assert(out@[k] == out_prev[k]);
                    } else if k == p {
                        assert(out@[k] == x);
                    } else {
                        assert(out@[k] == out_prev[k - 1]);
                    }
                }
            }
            assert(pv0.subrange(0, t + 1).drop_last() =~= pv0.subrange(0, t));
            assert(pv0.subrange(0, t + 1).last() == xv);
            t = t + 1;
        }
    }
    proof {
        assert(pv0.subrange(0, t) =~= pv0);
    }
    out
}

// ---------------------------------------------------------------------------
// The article store.
// ---------------------------------------------------------------------------

pub open spec fn articles_view(s: Seq<Article>) -> Seq<ArticleView> {
    s.map_values(|a: Article| a@)
}

pub open spec fn lists_view(ds: Seq<DirListing>) -> Seq<DirListingView> {
    ds.map_values(|d: DirListing| d@)
}

/// An article after compilation: the HTML of its body, when it has one.
pub open spec fn compiled_view(a: ArticleView) -> ArticleView {
    ArticleView {
        compiled: match a.body {
            Some(b) => Some(html_of(b)),
            None => None,
        },
        ..a
    }
}

pub open spec fn all_bodies_present(arts: Seq<ArticleView>) -> bool {
    forall|k: int| 0 <= k < arts.len() ==> (#[trigger] arts[k]).body is Some
}

/// The store's arrangement of the scanned articles.
pub open spec fn store_order(arts: Seq<ArticleView>) -> Seq<(int, ArticleView)> {
    sort_pairs_spec(enum_pairs(arts))
}

/// The articles the store ends up holding, in order, compiled.
pub open spec fn final_articles(arts: Seq<ArticleView>) -> Seq<ArticleView> {
    store_order(arts).map_values(|p: (int, ArticleView)| compiled_view(p.1))
}

/// What building the store from the given listings yields.
pub open spec fn build_spec(lv: Seq<DirListingView>) -> Result<Seq<ArticleView>, StoreError> {
    match scan_spec(lv) {
        Err(e) => Err(store_err(e)),
        Ok(arts) => {
            if all_bodies_present(arts) {
                Ok(final_articles(arts))
            } else {
                Err(StoreError::SourceUnreadable)
            }
        },
    }
}

/// A failed scan stays failed under more listings.
pub proof fn lemma_scan_spec_err_extend(ls1: Seq<DirListingView>, ls2: Seq<DirListingView>)
    requires
        scan_spec(ls1) is Err,
    ensures
        scan_spec(ls1 + ls2) == scan_spec(ls1),
    decreases ls2.len(),
{
    if ls2.len() == 0 {
        assert(ls1 + ls2 =~= ls1);
    } else {
        lemma_scan_spec_err_extend(ls1, ls2.drop_last());
        assert((ls1 + ls2).drop_last() =~= ls1 + ls2.drop_last());
        assert((ls1 + ls2).len() > 0);
    }
}


/// Scans every listing, in discovery order, into the valid articles.
fn scan_all(dirs: &Vec<DirListing>) -> (r: Result<Vec<Article>, StoreError>)
    ensures
        match r {
            Ok(v) => scan_spec(lists_view(dirs@)) == Ok::<Seq<ArticleView>, MetaError>(
                articles_view(v@),
            ),
            Err(e) => match scan_spec(lists_view(dirs@)) {
                Err(me) => e == store_err(me),
                Ok(arts) => false,
            },
        },
{
    let ghost lv = lists_view(dirs@);
    let mut scanned: Vec<Article> = Vec::new();
    let mut t: usize = 0;
    proof {
        assert(lv.subrange(0, 0) =~= Seq::<DirListingView>::empty());
        assert(articles_view(scanned@) =~= Seq::<ArticleView>::empty());
    }
    while t < dirs.len()
        invariant
            t <= dirs@.len(),
            lv == lists_view(dirs@),
            lv.len() == dirs@.len(),
            scan_spec(lv.subrange(0, t as int)) == Ok::<Seq<ArticleView>, MetaError>(
                articles_view(scanned@),
            ),
        decreases dirs@.len() - t,
    {
        let ghost prefix = lv.subrange(0, t as int);
        proof {
            assert(lv[t as int] == dirs@[t as int]@);
            assert(lv.subrange(0, t as int + 1).drop_last() =~= prefix);
            assert(lv.subrange(0, t as int + 1).last() == lv[t as int]);
        }
        let d = &dirs[t];
        match scan_dir(d) {
            Err(e) => {
                proof {
                    assert(scan_spec(lv.subrange(0, t as int + 1)) == Err::<
                        Seq<ArticleView>,
                        MetaError,
                    >(e));
                    lemma_scan_spec_err_extend(
                        lv.subrange(0, t as int + 1),
                        lv.subrange(t as int + 1, lv.len() as int),
                    );
                    assert(lv.subrange(0, t as int + 1) + lv.subrange(
                        t as int + 1,
                        lv.len() as int,
                    ) =~= lv);
                }
                return Err(match e {
                    MetaError::InvalidMetadata => StoreError::InvalidMetadata,
                    MetaError::InvalidDate => StoreError::InvalidDate,
                });
            },
            Ok(b) => {
                let ghost bv = b@;
                let Bundle { meta, has_body, body, media } = b;
                match meta {
                    Some(m) => {
                        if has_body && !m.title.as_str().is_empty()
                            && !m.alias.as_str().is_empty() {
                            proof {
                                assert(bundle_valid(bv));
                            }
                            let source = join_path(d.path.as_str(), "content.md");
                            let a = Article {
                                meta: m,
                                source,
                                dir: d.path.clone(),
                                body,
                                compiled: None,
                                files: media,
                            };
                            let ghost prev_scanned = scanned@;
                            proof {
                                assert(a@ == article_of_bundle(lv[t as int].path, bv));
                            }
                            scanned.push(a);
                            proof {
                                assert(articles_view(scanned@) =~= articles_view(
                                    prev_scanned,
                                ).push(article_of_bundle(lv[t as int].path, bv))) by {
                                    assert forall|k: int|
                                        0 <= k < scanned@.len() implies articles_view(
                                        scanned@,
                                    )[k] == articles_view(prev_scanned).push(
                                        article_of_bundle(lv[t as int].path, bv),
                                    )[k] by {
                                        if k < prev_scanned.len() {
                                            assert(scanned@[k] == prev_scanned[k]);
                                        }
                                    }
                                }
                            }
                        } else {
                            proof {
                                assert(!bundle_valid(bv));
                            }
                        }
                    },
                    None => {
                        proof {
                            assert(!bundle_valid(bv));
                        }
                    },
                }
                t += 1;
            },
        }
    }
    proof {
        assert(lv.subrange(0, lv.len() as int) =~= lv);
    }
    Ok(scanned)
}

/// The scanned articles, handed out one at a time from the end.
pub struct BlogFsIter {
    pub files: Vec<Article>,
}

impl BlogFsIter {
    /// Scans the listings into the articles the iteration will yield.
    pub fn new(dirs: Vec<DirListing>) -> (r: Result<BlogFsIter, StoreError>)
        ensures
            match r {
                Ok(it) => scan_spec(lists_view(dirs@)) == Ok::<Seq<ArticleView>, MetaError>(
                    articles_view(it.files@),
                ),
                Err(e) => match scan_spec(lists_view(dirs@)) {
                    Err(me) => e == store_err(me),
                    Ok(arts) => false,
                },
            },
    {
        match scan_all(&dirs) {
            Ok(files) => Ok(BlogFsIter { files }),
            Err(e) => Err(e),
        }
    }

    /// The next article: the last one still held, or nothing.
    pub fn next(&mut self) -> (r: Option<Article>)
        ensures
            match r {
                Some(a) => {
                    &&& old(self).files@.len() > 0
                    &&& a == old(self).files@.last()
                    &&& final(self).files@ == old(self).files@.drop_last()
                },
                None => old(self).files@.len() == 0 && final(self).files@ == old(self).files@,
            },
    {
        let r = self.files.pop();
        proof {
            if old(self).files@.len() > 0 {
                assert(self.files@ =~= old(self).files@.drop_last());
            }
        }
        r
    }
}

/// The sorted, compiled collection of the content root's articles,
/// immutable once built.
pub struct ArticleStore(pub Vec<Article>);

impl View for ArticleStore {
    type V = Seq<ArticleView>;

    open spec fn view(&self) -> Seq<ArticleView> {
        articles_view(self.0@)
    }
}

impl ArticleStore {
    /// Builds the store: scans the listings, sorts the valid articles by
    /// publish date descending (discovery order among equal dates), and
    /// compiles each body to HTML.
    pub fn from_dir(dirs: Vec<DirListing>) -> (r: Result<ArticleStore, StoreError>)
        ensures
            match r {
                Ok(store) => build_spec(lists_view(dirs@)) == Ok::<Seq<ArticleView>, StoreError>(
                    store@,
                ),
                Err(e) => build_spec(lists_view(dirs@)) == Err::<Seq<ArticleView>, StoreError>(e),
            },
    {
        let ghost lv = lists_view(dirs@);
        let scanned = match scan_all(&dirs) {
            Ok(v) => v,
            Err(e) => {
                return Err(e);
            },
        };
        let ghost arts = articles_view(scanned@);
        // every article needs a readable body before the store is built
        let mut k: usize = 0;
        while k < scanned.len()
            invariant
                k <= scanned@.len(),
                lv == lists_view(dirs@),
                arts == articles_view(scanned@),
                arts.len() == scanned@.len(),
                scan_spec(lv) == Ok::<Seq<ArticleView>, MetaError>(arts),
                forall|j: int| 0 <= j < k ==> (#[trigger] arts[j]).body is Some,
            decreases scanned@.len() - k,
        {
            proof {
                assert(arts[k as int] == scanned@[k as int]@);
            }
            match &scanned[k].body {
                None => {
                    proof {
                        assert(arts[k as int].body is None);
                        assert(!all_bodies_present(arts));
                    }
                    return Err(StoreError::SourceUnreadable);
                },
                Some(_) => {},
            }
            k += 1;
        }
        // pair each article with its discovery index
        let mut pairs: Vec<(usize, Article)> = Vec::new();
        let mut i: usize = 0;
        let mut scanned = scanned;
        proof {
            assert(pairs_view(pairs@) =~= enum_pairs(arts).subrange(0, 0));
            assert(articles_view(scanned@) =~= arts.subrange(0, arts.len() as int));
        }
        while scanned.len() > 0
            invariant
                i <= arts.len(),
                arts.len() <= usize::MAX,
                arts.len() - i == scanned@.len(),
                articles_view(scanned@) == arts.subrange(i as int, arts.len() as int),
                pairs_view(pairs@) == enum_pairs(arts).subrange(0, i as int),
            decreases scanned@.len(),
        {
            let ghost scanned_prev = scanned@;
            let a = scanned.remove(0);
            proof {
                assert(articles_view(scanned_prev).len() == scanned_prev.len());
                assert(articles_view(scanned_prev) == arts.subrange(i as int, arts.len() as int));
                assert(i < arts.len());
                assert(arts.subrange(i as int, arts.len() as int)[0] == arts[i as int]);
                assert(articles_view(scanned_prev)[0] == a@);
                assert(a@ == arts[i as int]);
                assert(pairs_view(pairs@).len() == pairs@.len());
                assert(enum_pairs(arts).subrange(0, i as int).len() == i as int);
                assert(pairs@.len() == i as int);
                assert(articles_view(scanned@) =~= arts.subrange(i as int + 1, arts.len() as int))
                    by {
                    assert forall|k2: int| 0 <= k2 < scanned@.len() implies articles_view(
                        scanned@,
                    )[k2] == arts[i as int + 1 + k2] by {
                        assert(scanned@[k2] == scanned_prev[k2 + 1]);
                        assert(articles_view(scanned_prev)[k2 + 1] == arts.subrange(
                            i as int,
                            arts.len() as int,
                        )[k2 + 1]);
                    }
                }
            }
            let ghost pairs_prev = pairs@;
            pairs.push((i, a));
            proof {
                assert(pairs_view(pairs@) =~= enum_pairs(arts).subrange(0, i as int + 1)) by {
                    assert forall|k2: int| 0 <= k2 < pairs@.len() implies pairs_view(pairs@)[k2]
                        == enum_pairs(arts)[k2] by {
                        if k2 < pairs_prev.len() {
                            assert(pairs@[k2] == pairs_prev[k2]);
                            assert(pairs_view(pairs_prev)[k2] == enum_pairs(arts).subrange(
                                0,
                                i as int,
                            )[k2]);
                        } else {
                            assert(k2 == i as int);
                            assert(pairs@[k2] == (i, a));
                            assert(enum_pairs(arts)[k2] == (k2, arts[k2]));
                        }
                    }
                }
            }
            i += 1;
        }
        proof {
            assert(enum_pairs(arts).subrange(0, i as int) =~= enum_pairs(arts));
        }
        // arrange in store order
        let sorted = sort_pairs(pairs);
        // compile each article
        let ghost order = store_order(arts);
        let mut sorted = sorted;
        let mut out: Vec<Article> = Vec::new();
        let ghost mut done: int = 0;
        proof {
            lemma_sort_pairs_len(enum_pairs(arts));
            assert(articles_view(out@) =~= final_articles(arts).subrange(0, 0));
            assert(pairs_view(sorted@) =~= order.subrange(0, order.len() as int));
        }
        while sorted.len() > 0
            invariant
                0 <= done <= order.len(),
                order == store_order(arts),
                order.len() == final_articles(arts).len(),
                pairs_view(sorted@) == order.subrange(done, order.len() as int),
                articles_view(out@) == final_articles(arts).subrange(0, done),
            decreases sorted@.len(),
        {
            let ghost sorted_prev = sorted@;
            let pair = sorted.remove(0);
            let (_, mut a) = pair;
            proof {
                assert(pairs_view(sorted_prev).len() == sorted_prev.len());
                assert(pairs_view(sorted_prev) == order.subrange(done, order.len() as int));
                assert(done < order.len());
                assert(order.subrange(done, order.len() as int)[0] == order[done]);
                assert(pairs_view(sorted_prev)[0] == (pair.0 as int, pair.1@));
                assert(pairs_view(sorted_prev)[0] == order[done]);
                assert(a@ == order[done].1);
                assert(pairs_view(sorted@) =~= order.subrange(done + 1, order.len() as int)) by {
                    assert forall|k2: int| 0 <= k2 < sorted@.len() implies pairs_view(sorted@)[k2]
                        == order[done + 1 + k2] by {
                        assert(sorted@[k2] == sorted_prev[k2 + 1]);
                        assert(pairs_view(sorted_prev)[k2 + 1] == order.subrange(
                            done,
                            order.len() as int,
                        )[k2 + 1]);
                    }
                }
            }
            match &a.body {
                Some(b) => {
                    let html = compile_markdown(b.as_str());
                    a.compiled = Some(html);
                },
                None => {
                    a.compiled = None;
                },
            }
            proof {
                assert(a@ == compiled_view(order[done].1));
                assert(final_articles(arts)[done] == compiled_view(order[done].1));
            }
            let ghost out_prev = out@;
            out.push(a);
            proof {
                assert(articles_view(out_prev).len() == out_prev.len());
                assert(final_articles(arts).subrange(0, done).len() == done);
                assert(out_prev.len() == done);
                assert(articles_view(out@) =~= final_articles(arts).subrange(0, done + 1)) by {
                    assert forall|k2: int| 0 <= k2 < out@.len() implies articles_view(out@)[k2]
                        == final_articles(arts)[k2] by {
                        if k2 < out_prev.len() {
                            assert(out@[k2] == out_prev[k2]);
                            assert(articles_view(out_prev)[k2] == final_articles(arts).subrange(
                                0,
                                done,
                            )[k2]);
                        } else {
                            assert(k2 == done);
                            assert(out@[k2] == a);
                            assert(articles_view(out@)[k2] == a@);
                        }
                    }
                }
                done = done + 1;
            }
        }
        proof {
            assert(final_articles(arts).subrange(0, done) =~= final_articles(arts));
        }
        Ok(ArticleStore(out))
    }

    /// How many articles the store holds.
    pub fn count(&self) -> (r: usize)
        ensures
            r == self@.len(),
    {
        self.0.len()
    }

    /// The articles, in store order.
    pub fn iter(&self) -> (r: &Vec<Article>)
        ensures
            r@ == self.0@,
            articles_view(r@) == self@,
    {
        &self.0
    }

    /// The first article with the given alias, when the store has one.
    pub fn find_by_alias(&self, alias: &str) -> (r: Option<&Article>)
        ensures
            match r {
                Some(a) => find_idx(self@, alias@) >= 0 && a@ == self@[find_idx(self@, alias@)],
                None => find_idx(self@, alias@) == -1,
            },
    {
        let ghost sv = self@;
        let mut i: usize = 0;
        while i < self.0.len()
            invariant
                i <= self.0@.len(),
                sv == articles_view(self.0@),
                sv.len() == self.0@.len(),
                forall|k: int| 0 <= k < i ==> (#[trigger] sv[k]).meta.alias != alias@,
            decreases self.0@.len() - i,
        {
            proof {
                assert(sv[i as int] == self.0@[i as int]@);
            }
            if str_eq(self.0[i].meta.alias.as_str(), alias) {
                proof {
                    lemma_find_idx(sv, alias@);
                    assert(find_idx(sv, alias@) == i as int);
                }
                return Some(&self.0[i]);
            }
            i += 1;
        }
        proof {
            lemma_find_idx(sv, alias@);
        }
        None
    }

    /// The path of a media file of the article with the given alias.
    pub fn resolve_media(&self, alias: &str, name: &str) -> (r: Option<&String>)
        ensures
            match r {
                Some(p) => resolved_media(self@, alias@, name@) == Some(p@),
                None => resolved_media(self@, alias@, name@) is None,
            },
    {
        let a = match self.find_by_alias(alias) {
            Some(a) => a,
            None => {
                return None;
            },
        };
        let ghost av = a@;
        let mut j: usize = 0;
        while j < a.files.len()
            invariant
                j <= a.files@.len(),
                av == a@,
                find_idx(self@, alias@) >= 0,
                av == self@[find_idx(self@, alias@)],
                av.files == media_seq_view(a.files@),
                av.files.len() == a.files@.len(),
                forall|k: int| 0 <= k < j ==> (#[trigger] av.files[k]).name != name@,
            decreases a.files@.len() - j,
        {
            proof {
                assert(av.files[j as int] == a.files@[j as int]@);
            }
            if str_eq(a.files[j].name.as_str(), name) {
                proof {
                    lemma_media_idx(av.files, name@);
                    assert(media_idx(av.files, name@) == j as int);
                }
                return Some(&a.files[j].path);
            }
            j += 1;
        }
        proof {
            lemma_media_idx(av.files, name@);
        }
        None
    }
}

/// First index of an article with the given alias, or -1.
pub open spec fn find_idx(s: Seq<ArticleView>, alias: Seq<char>) -> int
    decreases s.len(),
{
    if s.len() == 0 {
        -1
    } else if s[0].meta.alias == alias {
        0
    } else {
        let r = find_idx(s.drop_first(), alias);
        if r == -1 {
            -1
        } else {
            r + 1
        }
    }
}

/// What find_idx yields: -1 when no article matches, else the first match.
pub proof fn lemma_find_idx(s: Seq<ArticleView>, alias: Seq<char>)
    ensures
        find_idx(s, alias) == -1 ==> forall|k: int|
            0 <= k < s.len() ==> (#[trigger] s[k]).meta.alias != alias,
        find_idx(s, alias) != -1 ==> {
            &&& 0 <= find_idx(s, alias) < s.len()
            &&& s[find_idx(s, alias)].meta.alias == alias
            &&& forall|k: int|
                0 <= k < find_idx(s, alias) ==> (#[trigger] s[k]).meta.alias != alias
        },
    decreases s.len(),
{
    if s.len() > 0 && s[0].meta.alias != alias {
        lemma_find_idx(s.drop_first(), alias);
        assert forall|k: int| 1 <= k < s.len() implies (#[trigger] s[k]) == s.drop_first()[k
            - 1] by {}
    }
}

/// The resolved path of a media file: look the article up by alias, then
/// the file by name.
pub open spec fn resolved_media(s: Seq<ArticleView>, alias: Seq<char>, name: Seq<char>) -> Option<
    Seq<char>,
> {
    let i = find_idx(s, alias);
    if i == -1 {
        None
    } else {
        let j = media_idx(s[i].files, name);
        if j == -1 {
            None
        } else {
            Some(s[i].files[j].path)
        }
    }
}

// ---------------------------------------------------------------------------
// Laws of the store.
// ---------------------------------------------------------------------------

/// Whether a directory contributes an article.
pub open spec fn dir_has_article(l: DirListingView) -> bool {
    match listing_result(l) {
        Ok(Some(a)) => true,
        _ => false,
    }
}

/// Number of directories that contribute an article.
pub open spec fn valid_dir_count(ls: Seq<DirListingView>) -> int
    decreases ls.len(),
{
    if ls.len() == 0 {
        0
    } else {
        let c: int = if dir_has_article(ls.last()) {
            1
        } else {
            0
        };
        valid_dir_count(ls.drop_last()) + c
    }
}

proof fn lemma_scan_count(lv: Seq<DirListingView>, arts: Seq<ArticleView>)
    requires
        scan_spec(lv) == Ok::<Seq<ArticleView>, MetaError>(arts),
    ensures
        arts.len() == valid_dir_count(lv),
    decreases lv.len(),
{
    if lv.len() > 0 {
        match scan_spec(lv.drop_last()) {
            Ok(prev) => {
                lemma_scan_count(lv.drop_last(), prev);
            },
            Err(e) => {},
        }
    }
}

/// The store holds exactly one article per directory whose bundle has a
/// body file and a metadata record with non-empty title and alias.
pub proof fn lemma_store_count(lv: Seq<DirListingView>, store: Seq<ArticleView>)
    requires
        build_spec(lv) == Ok::<Seq<ArticleView>, StoreError>(store),
    ensures
        store.len() == valid_dir_count(lv),
{
    match scan_spec(lv) {
        Ok(arts) => {
            lemma_scan_count(lv, arts);
            lemma_sort_pairs_len(enum_pairs(arts));
        },
        Err(e) => {},
    }
}

/// No two positions of the store's arrangement carry the same discovery
/// index.
pub open spec fn distinct_indices(s: Seq<(int, ArticleView)>) -> bool {
    forall|i: int, j: int| 0 <= i < j < s.len() ==> (#[trigger] s[i]).0 != (#[trigger] s[j]).0
}

proof fn lemma_insert_sorted_distinct(s: Seq<(int, ArticleView)>, x: (int, ArticleView))
    requires
        distinct_indices(s),
        forall|k: int| 0 <= k < s.len() ==> (#[trigger] s[k]).0 != x.0,
    ensures
        distinct_indices(insert_sorted(s, x)),
    decreases s.len(),
{
    if s.len() == 0 {
    } else if pair_le(s[0], x) {
        let df = s.drop_first();
        assert forall|k: int| 0 <= k < df.len() implies (#[trigger] df[k]) == s[k + 1] by {}
        lemma_insert_sorted_distinct(df, x);
        let t = insert_sorted(df, x);
        let r = insert_sorted(s, x);
        assert(r == seq![s[0]] + t);
        assert forall|i: int, j: int| 0 <= i < j < r.len() implies (#[trigger] r[i]).0 != (
        #[trigger] r[j]).0 by {
            if i == 0 {
                assert(r[0] == s[0]);
                assert(r[j] == t[j - 1]);
                lemma_insert_sorted_contains(df, x, t[j - 1]);
                assert(t.contains(t[j - 1]));
                if df.contains(t[j - 1]) {
                    let k = choose|k: int| 0 <= k < df.len() && df[k] == t[j - 1];
                    assert(df[k] == s[k + 1]);
                } else {
                    assert(t[j - 1] == x);
                }
            } else {
                assert(r[i] == t[i - 1]);
                assert(r[j] == t[j - 1]);
            }
        }
    } else {
        let r = insert_sorted(s, x);
        assert(r == seq![x] + s);
        assert forall|i: int, j: int| 0 <= i < j < r.len() implies (#[trigger] r[i]).0 != (
        #[trigger] r[j]).0 by {
            if i == 0 {
                assert(r[0] == x);
                assert(r[j] == s[j - 1]);
            } else {
                assert(r[i] == s[i - 1]);
                assert(r[j] == s[j - 1]);
            }
        }
    }
}

/// The store's arrangement keeps the discovery indices distinct and
/// within range.
pub proof fn lemma_store_order_distinct(arts: Seq<ArticleView>)
    ensures
        distinct_indices(store_order(arts)),
    decreases arts.len(),
{
    if arts.len() == 0 {
    } else {
        let dl = arts.drop_last();
        let e = enum_pairs(arts);
        let edl = enum_pairs(dl);
        assert(e.drop_last() =~= edl);
        lemma_store_order_distinct(dl);
        let sorted_dl = sort_pairs_spec(edl);
        assert forall|k: int| 0 <= k < sorted_dl.len() implies (#[trigger] sorted_dl[k]).0 != e.last().0 by {
            lemma_sort_pairs_contains(edl, sorted_dl[k]);
            assert(sorted_dl.contains(sorted_dl[k]));
            assert(edl.contains(sorted_dl[k]));
            let m = choose|m: int| 0 <= m < edl.len() && edl[m] == sorted_dl[k];
            assert(edl[m].0 == m);
            assert(e.last().0 == arts.len() - 1);
        }
        lemma_insert_sorted_distinct(sorted_dl, e.last());
        assert(store_order(arts) == insert_sorted(sorted_dl, e.last()));
    }
}

/// Iteration order of the store: publish dates never increase, and among
/// equal dates the discovery order is kept.
pub proof fn lemma_iteration_order(arts: Seq<ArticleView>, i: int, j: int)
    requires
        0 <= i < j < store_order(arts).len(),
    ensures
        store_order(arts)[i].1.meta.published_at.key()
            >= store_order(arts)[j].1.meta.published_at.key(),
        store_order(arts)[i].1.meta.published_at.key()
            == store_order(arts)[j].1.meta.published_at.key() ==> store_order(arts)[i].0
            < store_order(arts)[j].0,
{
    lemma_sort_pairs_sorted(enum_pairs(arts));
    lemma_store_order_distinct(arts);
    assert(pair_le(store_order(arts)[i], store_order(arts)[j]));
}

/// The articles a built store hands out never increase in publish date.
pub proof fn lemma_store_sorted(lv: Seq<DirListingView>, store: Seq<ArticleView>, i: int, j: int)
    requires
        build_spec(lv) == Ok::<Seq<ArticleView>, StoreError>(store),
        0 <= i < j < store.len(),
    ensures
        store[i].meta.published_at.key() >= store[j].meta.published_at.key(),
{
    match scan_spec(lv) {
        Ok(arts) => {
            assert(store == final_articles(arts));
            lemma_iteration_order(arts, i, j);
            assert(store[i] == compiled_view(store_order(arts)[i].1));
            assert(store[j] == compiled_view(store_order(arts)[j].1));
        },
        Err(e) => {},
    }
}

/// Index of the last '/' of a path, or -1.
pub open spec fn last_slash(s: Seq<char>) -> int
    decreases s.len(),
{
    if s.len() == 0 {
        -1
    } else if s.last() == '/' {
        s.len() - 1
    } else {
        last_slash(s.drop_last())
    }
}

/// The file name of a path: what follows its last '/'.
pub open spec fn path_file_name(p: Seq<char>) -> Seq<char> {
    p.subrange(last_slash(p) + 1, p.len() as int)
}

/// A directory entry's bare name: non-empty, without '/'.
pub open spec fn plain_name(n: Seq<char>) -> bool {
    n.len() > 0 && forall|i: int| 0 <= i < n.len() ==> n[i] != '/'
}

proof fn lemma_last_slash_at(s: Seq<char>, p: int)
    requires
        0 <= p < s.len(),
        s[p] == '/',
        forall|q: int| p < q < s.len() ==> s[q] != '/',
    ensures
        last_slash(s) == p,
    decreases s.len(),
{
    if p == s.len() - 1 {
    } else {
        assert(s.last() != '/');
        let dl = s.drop_last();
        assert(dl[p] == s[p]);
        assert forall|q: int| p < q < dl.len() implies dl[q] != '/' by {
            assert(dl[q] == s[q]);
        }
        lemma_last_slash_at(dl, p);
    }
}

/// A joined path's file name is the joined name.
pub proof fn lemma_joined_file_name(dir: Seq<char>, name: Seq<char>)
    requires
        plain_name(name),
    ensures
        path_file_name(joined(dir, name)) == name,
{
    reveal_strlit("/");
    let j = joined(dir, name);
    assert(j.len() == dir.len() + 1 + name.len());
    assert(j[dir.len() as int] == '/') by {
        assert((dir + "/"@)[dir.len() as int] == "/"@[0]);
    }
    assert forall|q: int| dir.len() < q < j.len() implies j[q] != '/' by {
        assert(j[q] == name[q - dir.len() - 1]);
    }
    lemma_last_slash_at(j, dir.len() as int);
    assert(path_file_name(j) =~= name);
}

/// Every media file of the article lies in the article's directory under
/// its own name.
pub open spec fn article_media_wf(a: ArticleView) -> bool {
    forall|j: int|
        0 <= j < a.files.len() ==> (#[trigger] a.files[j]).path == joined(a.dir, a.files[j].name)
            && plain_name(a.files[j].name)
}

/// All file names of the listing are bare directory-entry names.
pub open spec fn listing_plain(l: DirListingView) -> bool {
    forall|k: int| 0 <= k < l.files.len() ==> plain_name((#[trigger] l.files[k]).name)
}

proof fn lemma_scan_files_media_wf(dir: Seq<char>, files: Seq<FsFileView>, b: BundleView)
    requires
        forall|k: int| 0 <= k < files.len() ==> plain_name((#[trigger] files[k]).name),
        scan_files(dir, files) == Ok::<BundleView, MetaError>(b),
    ensures
        forall|j: int|
            0 <= j < b.media.len() ==> (#[trigger] b.media[j]).path == joined(
                dir,
                b.media[j].name,
            ) && plain_name(b.media[j].name),
    decreases files.len(),
{
    if files.len() > 0 {
        let dl = files.drop_last();
        let f = files.last();
        match scan_files(dir, dl) {
            Ok(prev) => {
                assert forall|k: int| 0 <= k < dl.len() implies plain_name(
                    (#[trigger] dl[k]).name,
                ) by {
                    assert(dl[k] == files[k]);
                }
                lemma_scan_files_media_wf(dir, dl, prev);
                assert(plain_name(f.name)) by {
                    assert(files[files.len() - 1] == f);
                }
                if f.name == "meta.ron"@ || f.name == "content.md"@ {
                } else if is_media_name(f.name) {
                    let m = MediaView { name: f.name, path: joined(dir, f.name) };
                    let i = media_idx(prev.media, m.name);
                    lemma_media_idx(prev.media, m.name);
                    assert forall|j: int| 0 <= j < b.media.len() implies (#[trigger] b.media[j]).path
                        == joined(dir, b.media[j].name) && plain_name(b.media[j].name) by {
                        if i == -1 {
                            assert(b.media == prev.media.push(m));
                            if j < prev.media.len() {
                                assert(b.media[j] == prev.media[j]);
                            } else {
                                assert(b.media[j] == m);
                            }
                        } else {
                            assert(b.media == prev.media.update(i, m));
                            if j != i {
                                assert(b.media[j] == prev.media[j]);
                            } else {
                                assert(b.media[j] == m);
                            }
                        }
                    }
                } else {
                }
            },
            Err(e) => {},
        }
    }
}

proof fn lemma_scan_spec_media_wf(lv: Seq<DirListingView>, arts: Seq<ArticleView>)
    requires
        forall|k: int| 0 <= k < lv.len() ==> listing_plain(#[trigger] lv[k]),
        scan_spec(lv) == Ok::<Seq<ArticleView>, MetaError>(arts),
    ensures
        forall|i: int| 0 <= i < arts.len() ==> article_media_wf(#[trigger] arts[i]),
    decreases lv.len(),
{
    if lv.len() > 0 {
        let dl = lv.drop_last();
        let l = lv.last();
        match scan_spec(dl) {
            Ok(prev) => {
                assert forall|k: int| 0 <= k < dl.len() implies listing_plain(
                    #[trigger] dl[k],
                ) by {
                    assert(dl[k] == lv[k]);
                }
                lemma_scan_spec_media_wf(dl, prev);
                assert(listing_plain(l)) by {
                    assert(lv[lv.len() - 1] == l);
                }
                match listing_result(l) {
                    Ok(Some(a)) => {
                        match scan_files(l.path, l.files) {
                            Ok(b) => {
                                lemma_scan_files_media_wf(l.path, l.files, b);
                                assert(article_media_wf(a));
                                assert(arts == prev.push(a));
                                assert forall|i: int| 0 <= i < arts.len() implies article_media_wf(
                                    #[trigger] arts[i],
                                ) by {
                                    if i < prev.len() {
                                        assert(arts[i] == prev[i]);
                                    } else {
                                        assert(arts[i] == a);
                                    }
                                }
                            },
                            Err(e) => {},
                        }
                    },
                    Ok(None) => {},
                    Err(e) => {},
                }
            },
            Err(e) => {},
        }
    }
}

/// A built store's media files lie in their articles' directories under
/// their own names.
pub proof fn lemma_build_media_wf(lv: Seq<DirListingView>, store: Seq<ArticleView>)
    requires
        forall|k: int| 0 <= k < lv.len() ==> listing_plain(#[trigger] lv[k]),
        build_spec(lv) == Ok::<Seq<ArticleView>, StoreError>(store),
    ensures
        forall|i: int| 0 <= i < store.len() ==> article_media_wf(#[trigger] store[i]),
{
    match scan_spec(lv) {
        Ok(arts) => {
            lemma_scan_spec_media_wf(lv, arts);
            assert(store == final_articles(arts));
            let order = store_order(arts);
            assert forall|i: int| 0 <= i < store.len() implies article_media_wf(
                #[trigger] store[i],
            ) by {
                assert(store[i] == compiled_view(order[i].1));
                lemma_sort_pairs_contains(enum_pairs(arts), order[i]);
                assert(order.contains(order[i]));
                assert(enum_pairs(arts).contains(order[i]));
                let m = choose|m: int| 0 <= m < enum_pairs(arts).len() && enum_pairs(arts)[m]
                    == order[i];
                assert(enum_pairs(arts)[m] == (m, arts[m]));
                assert(article_media_wf(arts[m]));
                assert(store[i].files == arts[m].files);
                assert(store[i].dir == arts[m].dir);
            }
        },
        Err(e) => {},
    }
}

/// A resolved media path's file name is the requested name, wherever the
/// store's media files lie in their articles' directories.
pub proof fn lemma_resolve_media_file_name(
    s: Seq<ArticleView>,
    alias: Seq<char>,
    name: Seq<char>,
    p: Seq<char>,
)
    requires
        forall|i: int| 0 <= i < s.len() ==> article_media_wf(#[trigger] s[i]),
        resolved_media(s, alias, name) == Some(p),
    ensures
        path_file_name(p) == name,
{
    let i = find_idx(s, alias);
    lemma_find_idx(s, alias);
    let j = media_idx(s[i].files, name);
    lemma_media_idx(s[i].files, name);
    assert(s[i].files[j].name == name);
    assert(p == joined(s[i].dir, name));
    lemma_joined_file_name(s[i].dir, name);
}

/// With pairwise distinct aliases, an alias finds nothing when no article
/// carries it, and the unique article that does otherwise.
pub proof fn lemma_find_unique(s: Seq<ArticleView>, alias: Seq<char>)
    requires
        forall|i: int, j: int|
            0 <= i < j < s.len() ==> (#[trigger] s[i]).meta.alias != (#[trigger] s[j]).meta.alias,
    ensures
        (find_idx(s, alias) == -1) <==> (forall|k: int|
            0 <= k < s.len() ==> (#[trigger] s[k]).meta.alias != alias),
        find_idx(s, alias) != -1 ==> {
            &&& 0 <= find_idx(s, alias) < s.len()
            &&& s[find_idx(s, alias)].meta.alias == alias
            &&& forall|k: int|
                0 <= k < s.len() && (#[trigger] s[k]).meta.alias == alias ==> k == find_idx(
                    s,
                    alias,
                )
        },
{
    lemma_find_idx(s, alias);
    if find_idx(s, alias) != -1 {
        let f = find_idx(s, alias);
        assert forall|k: int|
            0 <= k < s.len() && (#[trigger] s[k]).meta.alias == alias implies k == f by {
            if k < f {
                assert(s[k].meta.alias != alias);
            }
            if f < k {
                assert(s[f].meta.alias != s[k].meta.alias);
            }
        }
    }
}

} // verus!
