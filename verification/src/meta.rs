use vstd::prelude::*;
use vstd::string::*;

use crate::dates::{parse_date, parses_to, Date};
use crate::text::{chars_vec, digit_char, is_digit, is_ws, string_of_chars, word_eq, ws_char};

verus! {

// ---------------------------------------------------------------------------
// The metadata record format.
//
// An article's metadata record is a key/value text of the shape
//
//     (
//         title: "...",
//         alias: "...",
//         cover: "...",
//         tags: Some("..."),
//         published: "1.1.2024",
//         teaser: "...",
//     )
//
// optionally preceded by a record name.  Keys may come in any order; each
// of title, alias, cover, published and teaser must occur exactly once and
// carry a quoted string; tags may be absent, None, or Some of a string.
// Quoted strings know the escapes \" \\ \n \r \t.
// ---------------------------------------------------------------------------

/// Errors of the metadata parser.
#[derive(Clone, Copy, Debug, PartialEq, Eq, Structural)]
pub enum MetaError {
    /// The text is not a well-formed metadata record.
    InvalidMetadata,
    /// The published field does not denote a calendar date in
    /// day.month.year form.
    InvalidDate,
}

/// A raw field value of a metadata record.
pub enum RawValue {
    Text(Seq<char>),
    NoneVal,
    SomeVal(Seq<char>),
}

/// A raw key/value pair of a metadata record.
pub struct RawField {
    pub key: Seq<char>,
    pub val: RawValue,
}

pub open spec fn is_ident_start(c: char) -> bool {
    65 <= c as u32 <= 90 || 97 <= c as u32 <= 122 || c == '_'
}

pub open spec fn is_ident_char(c: char) -> bool {
    is_ident_start(c) || is_digit(c)
}

/// First position at or after `i` that does not hold whitespace.
pub open spec fn skip_ws(s: Seq<char>, i: int) -> int
    decreases s.len() - i,
{
    if 0 <= i < s.len() && is_ws(s[i]) {
        skip_ws(s, i + 1)
    } else {
        i
    }
}

/// First position at or after `i` that does not hold an identifier character.
pub open spec fn ident_end(s: Seq<char>, i: int) -> int
    decreases s.len() - i,
{
    if 0 <= i < s.len() && is_ident_char(s[i]) {
        ident_end(s, i + 1)
    } else {
        i
    }
}

/// The character denoted by an escape character.
pub open spec fn esc_char(c: char) -> Option<char> {
    if c == '"' {
        Some('"')
    } else if c == '\\' {
        Some('\\')
    } else if c == 'n' {
        Some('\n')
    } else if c == 'r' {
        Some('\r')
    } else if c == 't' {
        Some('\t')
    } else {
        None
    }
}

/// Decodes the body of a quoted string that starts at `i` (just after the
/// opening quote): the decoded characters and the position after the
/// closing quote.
pub open spec fn str_body(s: Seq<char>, i: int) -> Option<(int, Seq<char>)>
    decreases s.len() - i,
{
    if !(0 <= i < s.len()) {
        None
    } else if s[i] == '"' {
        Some((i + 1, Seq::<char>::empty()))
    } else if s[i] == '\\' {
        if i + 1 < s.len() {
            match esc_char(s[i + 1]) {
                Some(c) => match str_body(s, i + 2) {
                    Some((j, t)) => Some((j, seq![c] + t)),
                    None => None,
                },
                None => None,
            }
        } else {
            None
        }
    } else {
        match str_body(s, i + 1) {
            Some((j, t)) => Some((j, seq![s[i]] + t)),
            None => None,
        }
    }
}

/// A quoted string at `i`: its contents and the position after it.
pub open spec fn parse_string(s: Seq<char>, i: int) -> Option<(int, Seq<char>)> {
    if 0 <= i < s.len() && s[i] == '"' {
        str_body(s, i + 1)
    } else {
        None
    }
}

/// A field value at `i`: a quoted string, None, or Some of a quoted string.
pub open spec fn parse_value(s: Seq<char>, i: int) -> Option<(int, RawValue)> {
    if !(0 <= i < s.len()) {
        None
    } else if s[i] == '"' {
        match str_body(s, i + 1) {
            Some((j, t)) => Some((j, RawValue::Text(t))),
            None => None,
        }
    } else {
        let e = ident_end(s, i);
        if s.subrange(i, e) == "None"@ {
            Some((e, RawValue::NoneVal))
        } else if s.subrange(i, e) == "Some"@ {
            let i1 = skip_ws(s, e);
            if i1 < s.len() && s[i1] == '(' {
                match parse_string(s, skip_ws(s, i1 + 1)) {
                    Some((j, t)) => {
                        let j1 = skip_ws(s, j);
                        if j1 < s.len() && s[j1] == ')' {
                            Some((j1 + 1, RawValue::SomeVal(t)))
                        } else {
                            None
                        }
                    },
                    None => None,
                }
            } else {
                None
            }
        } else {
            None
        }
    }
}

/// A `key: value` pair at `i`.
pub open spec fn parse_field(s: Seq<char>, i: int) -> Option<(int, RawField)> {
    let i1 = skip_ws(s, i);
    if 0 <= i1 < s.len() && is_ident_start(s[i1]) {
        let e = ident_end(s, i1);
        let i2 = skip_ws(s, e);
        if 0 <= i2 < s.len() && s[i2] == ':' {
            match parse_value(s, skip_ws(s, i2 + 1)) {
                Some((j, v)) => Some((j, RawField { key: s.subrange(i1, e), val: v })),
                None => None,
            }
        } else {
            None
        }
    } else {
        None
    }
}

pub proof fn lemma_skip_ws_bounds(s: Seq<char>, i: int)
    requires
        0 <= i <= s.len(),
    ensures
        i <= skip_ws(s, i) <= s.len(),
    decreases s.len() - i,
{
    if 0 <= i < s.len() && is_ws(s[i]) {
        lemma_skip_ws_bounds(s, i + 1);
    }
}

pub proof fn lemma_ident_end_bounds(s: Seq<char>, i: int)
    requires
        0 <= i <= s.len(),
    ensures
        i <= ident_end(s, i) <= s.len(),
    decreases s.len() - i,
{
    if 0 <= i < s.len() && is_ident_char(s[i]) {
        lemma_ident_end_bounds(s, i + 1);
    }
}

pub proof fn lemma_str_body_bounds(s: Seq<char>, i: int)
    requires
        0 <= i <= s.len(),
    ensures
        match str_body(s, i) {
            Some((j, t)) => i + 1 <= j <= s.len(),
            None => true,
        },
    decreases s.len() - i,
{
    if 0 <= i < s.len() {
        if s[i] == '"' {
        } else if s[i] == '\\' {
            if i + 1 < s.len() && esc_char(s[i + 1]) is Some {
                lemma_str_body_bounds(s, i + 2);
            }
        } else {
            lemma_str_body_bounds(s, i + 1);
        }
    }
}

pub proof fn lemma_parse_value_bounds(s: Seq<char>, i: int)
    requires
        0 <= i <= s.len(),
    ensures
        match parse_value(s, i) {
            Some((j, v)) => i < j <= s.len(),
            None => true,
        },
{
    reveal_strlit("None");
    reveal_strlit("Some");
    if 0 <= i < s.len() {
        if s[i] == '"' {
            lemma_str_body_bounds(s, i + 1);
        } else {
            lemma_ident_end_bounds(s, i);
            let e = ident_end(s, i);
            if s.subrange(i, e) == "None"@ {
                assert("None"@.len() == 4);
                assert(s.subrange(i, e).len() == e - i);
                assert(e - i == 4);
            } else if s.subrange(i, e) == "Some"@ {
                assert("Some"@.len() == 4);
                assert(s.subrange(i, e).len() == e - i);
                assert(e - i == 4);
                let i1 = skip_ws(s, e);
                lemma_skip_ws_bounds(s, e);
                if i1 < s.len() && s[i1] == '(' {
                    lemma_skip_ws_bounds(s, i1 + 1);
                    let i2 = skip_ws(s, i1 + 1);
                    if 0 <= i2 < s.len() && s[i2] == '"' {
                        lemma_str_body_bounds(s, i2 + 1);
                        match str_body(s, i2 + 1) {
                            Some((j, t)) => {
                                lemma_skip_ws_bounds(s, j);
                            },
                            None => {},
                        }
                    }
                }
            }
        }
    }
}

pub proof fn lemma_parse_field_bounds(s: Seq<char>, i: int)
    requires
        0 <= i <= s.len(),
    ensures
        match parse_field(s, i) {
            Some((j, f)) => i < j <= s.len(),
            None => true,
        },
{
    lemma_skip_ws_bounds(s, i);
    let i1 = skip_ws(s, i);
    if 0 <= i1 < s.len() && is_ident_start(s[i1]) {
        lemma_ident_end_bounds(s, i1);
        let e = ident_end(s, i1);
        lemma_skip_ws_bounds(s, e);
        let i2 = skip_ws(s, e);
        if 0 <= i2 < s.len() && s[i2] == ':' {
            lemma_skip_ws_bounds(s, i2 + 1);
            lemma_parse_value_bounds(s, skip_ws(s, i2 + 1));
        }
    }
}

/// The comma-separated fields from `i` up to and including the closing
/// parenthesis: the fields and the position after the parenthesis.
pub open spec fn parse_fields(s: Seq<char>, i: int) -> Option<(int, Seq<RawField>)>
    decreases s.len() - i,
        via parse_fields_dec
{
    if !(0 <= i <= s.len()) {
        None
    } else {
        let i1 = skip_ws(s, i);
        if i1 < s.len() && s[i1] == ')' {
            Some((i1 + 1, Seq::<RawField>::empty()))
        } else {
            match parse_field(s, i) {
                Some((j, f)) => {
                    let i2 = skip_ws(s, j);
                    if i2 < s.len() && s[i2] == ',' {
                        match parse_fields(s, i2 + 1) {
                            Some((j2, fs)) => Some((j2, seq![f] + fs)),
                            None => None,
                        }
                    } else if i2 < s.len() && s[i2] == ')' {
                        Some((i2 + 1, seq![f]))
                    } else {
                        None
                    }
                },
                None => None,
            }
        }
    }
}

#[via_fn]
proof fn parse_fields_dec(s: Seq<char>, i: int) {
    if 0 <= i <= s.len() {
        lemma_skip_ws_bounds(s, i);
        lemma_parse_field_bounds(s, i);
        match parse_field(s, i) {
            Some((j, f)) => {
                lemma_skip_ws_bounds(s, j);
            },
            None => {},
        }
    }
}

/// The fields of a whole metadata record, when the text is one.
pub open spec fn record_fields(s: Seq<char>) -> Option<Seq<RawField>> {
    let i0 = skip_ws(s, 0);
    let i1 = if 0 <= i0 < s.len() && is_ident_start(s[i0]) {
        skip_ws(s, ident_end(s, i0))
    } else {
        i0
    };
    if 0 <= i1 < s.len() && s[i1] == '(' {
        match parse_fields(s, i1 + 1) {
            Some((j, fs)) => {
                if skip_ws(s, j) == s.len() {
                    Some(fs)
                } else {
                    None
                }
            },
            None => None,
        }
    } else {
        None
    }
}

// ---------------------------------------------------------------------------
// Assembling the fields into a metadata value.
// ---------------------------------------------------------------------------

/// The fields gathered so far while walking a record left to right.
pub struct PartialMeta {
    pub title: Option<Seq<char>>,
    pub alias: Option<Seq<char>>,
    pub cover: Option<Seq<char>>,
    pub tags: Option<Option<Seq<char>>>,
    pub published: Option<Seq<char>>,
    pub teaser: Option<Seq<char>>,
}

pub open spec fn empty_partial() -> PartialMeta {
    PartialMeta {
        title: None,
        alias: None,
        cover: None,
        tags: None,
        published: None,
        teaser: None,
    }
}

/// Adds one raw field to the partial record: fails on an unknown key, a
/// repeated key, or a value of the wrong shape.
pub open spec fn apply_field(p: PartialMeta, f: RawField) -> Option<PartialMeta> {
    if f.key == "title"@ {
        match (p.title, f.val) {
            (None, RawValue::Text(t)) => Some(PartialMeta { title: Some(t), ..p }),
            _ => None,
        }
    } else if f.key == "alias"@ {
        match (p.alias, f.val) {
            (None, RawValue::Text(t)) => Some(PartialMeta { alias: Some(t), ..p }),
            _ => None,
        }
    } else if f.key == "cover"@ {
        match (p.cover, f.val) {
            (None, RawValue::Text(t)) => Some(PartialMeta { cover: Some(t), ..p }),
            _ => None,
        }
    } else if f.key == "tags"@ {
        match (p.tags, f.val) {
            (None, RawValue::NoneVal) => Some(PartialMeta { tags: Some(None), ..p }),
            (None, RawValue::SomeVal(t)) => Some(PartialMeta { tags: Some(Some(t)), ..p }),
            _ => None,
        }
    } else if f.key == "published"@ {
        match (p.published, f.val) {
            (None, RawValue::Text(t)) => Some(PartialMeta { published: Some(t), ..p }),
            _ => None,
        }
    } else if f.key == "teaser"@ {
        match (p.teaser, f.val) {
            (None, RawValue::Text(t)) => Some(PartialMeta { teaser: Some(t), ..p }),
            _ => None,
        }
    } else {
        None
    }
}

/// Folds the fields left to right into a partial record.
pub open spec fn assemble(fs: Seq<RawField>) -> Option<PartialMeta>
    decreases fs.len(),
{
    if fs.len() == 0 {
        Some(empty_partial())
    } else {
        match assemble(fs.drop_last()) {
            Some(p) => apply_field(p, fs.last()),
            None => None,
        }
    }
}

/// All required fields are present.
pub open spec fn complete(p: PartialMeta) -> bool {
    p.title is Some && p.alias is Some && p.cover is Some && p.published is Some
        && p.teaser is Some
}

/// A failed assembly stays failed under further fields.
pub proof fn lemma_assemble_none_extend(fs1: Seq<RawField>, fs2: Seq<RawField>)
    requires
        assemble(fs1) is None,
    ensures
        assemble(fs1 + fs2) is None,
    decreases fs2.len(),
{
    if fs2.len() == 0 {
        assert(fs1 + fs2 =~= fs1);
    } else {
        lemma_assemble_none_extend(fs1, fs2.drop_last());
        assert((fs1 + fs2).drop_last() =~= fs1 + fs2.drop_last());
        assert(fs1 + fs2 =~= (fs1 + fs2.drop_last()).push(fs2.last()));
        assert((fs1 + fs2).len() > 0);
    }
}

// ---------------------------------------------------------------------------
// The metadata value and the parser's contract.
// ---------------------------------------------------------------------------

/// The mathematical value of an article's metadata.
pub struct MetaView {
    pub title: Seq<char>,
    pub alias: Seq<char>,
    pub cover: Seq<char>,
    pub tags: Option<Seq<char>>,
    pub published: Seq<char>,
    pub teaser: Seq<char>,
    pub published_at: Date,
}

/// An article's metadata: the decoded record fields together with the
/// parsed publish date, which orders articles.
#[derive(Debug, Clone)]
pub struct ArticleMeta {
    pub title: String,
    pub alias: String,
    pub cover: String,
    pub tags: Option<String>,
    pub published: String,
    pub teaser: String,
    pub published_at: Date,
}

impl View for ArticleMeta {
    type V = MetaView;

    open spec fn view(&self) -> MetaView {
        MetaView {
            title: self.title@,
            alias: self.alias@,
            cover: self.cover@,
            tags: match self.tags {
                Some(t) => Some(t@),
                None => None,
            },
            published: self.published@,
            teaser: self.teaser@,
            published_at: self.published_at,
        }
    }
}

/// `m` is the metadata that the record text `s` denotes.
pub open spec fn meta_matches(s: Seq<char>, m: MetaView) -> bool {
    match record_fields(s) {
        Some(fs) => match assemble(fs) {
            Some(p) => {
                &&& complete(p)
                &&& p.title == Some(m.title)
                &&& p.alias == Some(m.alias)
                &&& p.cover == Some(m.cover)
                &&& m.tags == (match p.tags {
                    Some(t) => t,
                    None => None,
                })
                &&& p.published == Some(m.published)
                &&& p.teaser == Some(m.teaser)
                &&& parses_to(m.published, m.published_at)
            },
            None => false,
        },
        None => false,
    }
}

/// The text is not a well-formed, full metadata record.
pub open spec fn meta_malformed(s: Seq<char>) -> bool {
    match record_fields(s) {
        Some(fs) => match assemble(fs) {
            Some(p) => !complete(p),
            None => true,
        },
        None => true,
    }
}

/// The record is well formed, but its published field denotes no
/// calendar date.
pub open spec fn meta_bad_date(s: Seq<char>) -> bool {
    match record_fields(s) {
        Some(fs) => match assemble(fs) {
            Some(p) => complete(p) && (match p.published {
                Some(pb) => forall|d: Date| !parses_to(pb, d),
                None => false,
            }),
            None => false,
        },
        None => false,
    }
}

/// The metadata that a record text denotes, as a value.
pub open spec fn spec_parse_meta(s: Seq<char>) -> Result<MetaView, MetaError> {
    if meta_malformed(s) {
        Err(MetaError::InvalidMetadata)
    } else if meta_bad_date(s) {
        Err(MetaError::InvalidDate)
    } else {
        Ok(choose|m: MetaView| meta_matches(s, m))
    }
}

/// A record text denotes at most one metadata value.
pub proof fn lemma_meta_unique(s: Seq<char>, m1: MetaView, m2: MetaView)
    requires
        meta_matches(s, m1),
        meta_matches(s, m2),
    ensures
        m1 == m2,
{
    crate::dates::lemma_parses_to_unique(m1.published, m1.published_at, m2.published_at);
}

/// A denoted metadata value is the one that spec_parse_meta yields.
pub proof fn lemma_spec_parse_meta_ok(s: Seq<char>, m: MetaView)
    requires
        meta_matches(s, m),
    ensures
        spec_parse_meta(s) == Ok::<MetaView, MetaError>(m),
{
    assert(!meta_malformed(s));
    assert(!meta_bad_date(s)) by {
        if meta_bad_date(s) {
            match record_fields(s) {
                Some(fs) => match assemble(fs) {
                    Some(p) => {
                        match p.published {
                            Some(pb) => {
                                assert(pb == m.published);
                                assert(parses_to(m.published, m.published_at));
                                assert(!parses_to(pb, m.published_at));
                            },
                            None => {},
                        }
                    },
                    None => {},
                },
                None => {},
            }
        }
    }
    let m2 = choose|m2: MetaView| meta_matches(s, m2);
    assert(meta_matches(s, m2));
    lemma_meta_unique(s, m, m2);
}

// ---------------------------------------------------------------------------
// The executable parser.
// ---------------------------------------------------------------------------

fn ident_start_char(c: char) -> (r: bool)
    ensures
        r == is_ident_start(c),
{
    let u = c as u32;
    (65 <= u && u <= 90) || (97 <= u && u <= 122) || c == '_'
}

fn ident_char(c: char) -> (r: bool)
    ensures
        r == is_ident_char(c),
{
    ident_start_char(c) || digit_char(c)
}

fn esc_char_exec(c: char) -> (r: Option<char>)
    ensures
        r == esc_char(c),
{
    if c == '"' {
        Some('"')
    } else if c == '\\' {
        Some('\\')
    } else if c == 'n' {
        Some('\n')
    } else if c == 'r' {
        Some('\r')
    } else if c == 't' {
        Some('\t')
    } else {
        None
    }
}

fn x_skip_ws(v: &Vec<char>, i0: usize) -> (r: usize)
    requires
        i0 <= v@.len(),
    ensures
        r as int == skip_ws(v@, i0 as int),
        i0 <= r <= v@.len(),
{
    let mut i = i0;
    while i < v.len() && ws_char(v[i])
        invariant
            i0 <= i <= v@.len(),
            skip_ws(v@, i0 as int) == skip_ws(v@, i as int),
        decreases v@.len() - i,
    {
        i += 1;
    }
    i
}

fn x_ident_end(v: &Vec<char>, i0: usize) -> (r: usize)
    requires
        i0 <= v@.len(),
    ensures
        r as int == ident_end(v@, i0 as int),
        i0 <= r <= v@.len(),
{
    let mut i = i0;
    while i < v.len() && ident_char(v[i])
        invariant
            i0 <= i <= v@.len(),
            ident_end(v@, i0 as int) == ident_end(v@, i as int),
        decreases v@.len() - i,
    {
        i += 1;
    }
    i
}

/// Decodes a quoted string's body starting just after the opening quote.
fn x_str_body(v: &Vec<char>, i0: usize) -> (r: Option<(usize, Vec<char>)>)
    requires
        i0 <= v@.len(),
    ensures
        match r {
            Some((j, t)) => str_body(v@, i0 as int) == Some((j as int, t@)) && i0 < j <= v@.len(),
            None => str_body(v@, i0 as int) is None,
        },
{
    let mut i = i0;
    let mut out: Vec<char> = Vec::new();
    loop
        invariant
            i0 <= i <= v@.len(),
            str_body(v@, i0 as int) == (match str_body(v@, i as int) {
                Some((j, t)) => Some((j, out@ + t)),
                None => None::<(int, Seq<char>)>,
            }),
        decreases v@.len() - i,
    {
        if i >= v.len() {
            return None;
        }
        let c = v[i];
        if c == '"' {
            proof {
                assert(out@ + Seq::<char>::empty() =~= out@);
            }
            return Some((i + 1, out));
        } else if c == '\\' {
            if i + 1 < v.len() {
                match esc_char_exec(v[i + 1]) {
                    Some(ec) => {
                        proof {
                            match str_body(v@, i as int + 2) {
                                Some((j, t)) => {
                                    assert(out@ + (seq![ec] + t) =~= out@.push(ec) + t);
                                },
                                None => {},
                            }
                        }
                        out.push(ec);
                        i += 2;
                    },
                    None => {
                        return None;
                    },
                }
            } else {
                return None;
            }
        } else {
            proof {
                match str_body(v@, i as int + 1) {
                    Some((j, t)) => {
                        assert(out@ + (seq![c] + t) =~= out@.push(c) + t);
                    },
                    None => {},
                }
            }
            out.push(c);
            i += 1;
        }
    }
}

/// A raw field value, as parsed.
enum ExValue {
    Text(Vec<char>),
    NoneV,
    SomeV(Vec<char>),
}

impl View for ExValue {
    type V = RawValue;

    closed spec fn view(&self) -> RawValue {
        match self {
            ExValue::Text(t) => RawValue::Text(t@),
            ExValue::NoneV => RawValue::NoneVal,
            ExValue::SomeV(t) => RawValue::SomeVal(t@),
        }
    }
}

/// A raw key/value pair, as parsed.
struct ExField {
    key: Vec<char>,
    val: ExValue,
}

impl View for ExField {
    type V = RawField;

    closed spec fn view(&self) -> RawField {
        RawField { key: self.key@, val: self.val@ }
    }
}

spec fn fields_view(s: Seq<ExField>) -> Seq<RawField> {
    s.map_values(|f: ExField| f@)
}

fn x_parse_value(v: &Vec<char>, i: usize) -> (r: Option<(usize, ExValue)>)
    requires
        i <= v@.len(),
    ensures
        match r {
            Some((j, val)) => parse_value(v@, i as int) == Some((j as int, val@)) && i < j
                <= v@.len(),
            None => parse_value(v@, i as int) is None,
        },
{
    let n = v.len();
    if i >= n {
        return None;
    }
    if v[i] == '"' {
        match x_str_body(v, i + 1) {
            Some((j, t)) => Some((j, ExValue::Text(t))),
            None => None,
        }
    } else {
        let e = x_ident_end(v, i);
        if word_eq(v, i, e, "None") {
            proof {
                reveal_strlit("None");
                assert(v@.subrange(i as int, e as int).len() == e - i);
            }
            Some((e, ExValue::NoneV))
        } else if word_eq(v, i, e, "Some") {
            let i1 = x_skip_ws(v, e);
            if i1 < n && v[i1] == '(' {
                let i2 = x_skip_ws(v, i1 + 1);
                if i2 < n && v[i2] == '"' {
                    match x_str_body(v, i2 + 1) {
                        Some((j, t)) => {
                            let j1 = x_skip_ws(v, j);
                            if j1 < n && v[j1] == ')' {
                                Some((j1 + 1, ExValue::SomeV(t)))
                            } else {
                                None
                            }
                        },
                        None => None,
                    }
                } else {
                    None
                }
            } else {
                None
            }
        } else {
            None
        }
    }
}

fn x_parse_field(v: &Vec<char>, i: usize) -> (r: Option<(usize, ExField)>)
    requires
        i <= v@.len(),
    ensures
        match r {
            Some((j, f)) => parse_field(v@, i as int) == Some((j as int, f@)) && i < j <= v@.len(),
            None => parse_field(v@, i as int) is None,
        },
{
    let n = v.len();
    let i1 = x_skip_ws(v, i);
    if i1 < n && ident_start_char(v[i1]) {
        let e = x_ident_end(v, i1);
        let i2 = x_skip_ws(v, e);
        if i2 < n && v[i2] == ':' {
            let i3 = x_skip_ws(v, i2 + 1);
            match x_parse_value(v, i3) {
                Some((j, val)) => {
                    let mut key: Vec<char> = Vec::new();
                    let mut k = i1;
                    while k < e
                        invariant
                            i1 <= k <= e <= v@.len(),
                            key@ == v@.subrange(i1 as int, k as int),
                        decreases e - k,
                    {
                        key.push(v[k]);
                        proof {
                            assert(key@ =~= v@.subrange(i1 as int, k as int + 1));
                        }
                        k += 1;
                    }
                    Some((j, ExField { key, val }))
                },
                None => None,
            }
        } else {
            None
        }
    } else {
        None
    }
}

/// Parses the comma-separated field list after the opening parenthesis.
fn x_parse_all_fields(v: &Vec<char>, i0: usize) -> (r: Option<(usize, Vec<ExField>)>)
    requires
        i0 <= v@.len(),
    ensures
        match r {
            Some((j, fields)) => parse_fields(v@, i0 as int) == Some(
                (j as int, fields_view(fields@)),
            ) && j <= v@.len(),
            None => parse_fields(v@, i0 as int) is None,
        },
{
    let n = v.len();
    let mut i = i0;
    let mut acc: Vec<ExField> = Vec::new();
    proof {
        assert(fields_view(Seq::<ExField>::empty()) =~= Seq::<RawField>::empty());
    }
    loop
        invariant
            i0 <= i <= v@.len(),
            n == v@.len(),
            parse_fields(v@, i0 as int) == (match parse_fields(v@, i as int) {
                Some((j, fs)) => Some((j, fields_view(acc@) + fs)),
                None => None::<(int, Seq<RawField>)>,
            }),
        decreases v@.len() - i,
    {
        let i1 = x_skip_ws(v, i);
        if i1 < n && v[i1] == ')' {
            proof {
                assert(fields_view(acc@) + Seq::<RawField>::empty() =~= fields_view(acc@));
            }
            return Some((i1 + 1, acc));
        }
        match x_parse_field(v, i) {
            None => {
                return None;
            },
            Some((j, f)) => {
                let i2 = x_skip_ws(v, j);
                if i2 < n && v[i2] == ',' {
                    proof {
                        let fv = f@;
                        assert(fields_view(acc@.push(f)) =~= fields_view(acc@).push(fv));
                        match parse_fields(v@, i2 as int + 1) {
                            Some((j2, fs2)) => {
                                assert(fields_view(acc@) + (seq![fv] + fs2) =~= fields_view(
                                    acc@,
                                ).push(fv) + fs2);
                            },
                            None => {},
                        }
                    }
                    acc.push(f);
                    i = i2 + 1;
                } else if i2 < n && v[i2] == ')' {
                    proof {
                        let fv = f@;
                        assert(fields_view(acc@.push(f)) =~= fields_view(acc@).push(fv));
                        assert(fields_view(acc@) + seq![fv] =~= fields_view(acc@).push(fv));
                    }
                    acc.push(f);
                    return Some((i2 + 1, acc));
                } else {
                    return None;
                }
            },
        }
    }
}

/// The fields gathered so far, as built.
struct PartialExec {
    title: Option<String>,
    alias: Option<String>,
    cover: Option<String>,
    tags: Option<Option<String>>,
    published: Option<String>,
    teaser: Option<String>,
}

impl View for PartialExec {
    type V = PartialMeta;

    closed spec fn view(&self) -> PartialMeta {
        PartialMeta {
            title: match self.title {
                Some(t) => Some(t@),
                None => None,
            },
            alias: match self.alias {
                Some(t) => Some(t@),
                None => None,
            },
            cover: match self.cover {
                Some(t) => Some(t@),
                None => None,
            },
            tags: match self.tags {
                Some(Some(t)) => Some(Some(t@)),
                Some(None) => Some(None),
                None => None,
            },
            published: match self.published {
                Some(t) => Some(t@),
                None => None,
            },
            teaser: match self.teaser {
                Some(t) => Some(t@),
                None => None,
            },
        }
    }
}

fn apply_field_exec(p: PartialExec, f: ExField) -> (r: Option<PartialExec>)
    ensures
        match r {
            Some(q) => apply_field(p@, f@) == Some(q@),
            None => apply_field(p@, f@) is None,
        },
{
    let ExField { key, val } = f;
    let klen = key.len();
    proof {
        assert(key@.subrange(0, klen as int) =~= key@);
    }
    if word_eq(&key, 0, klen, "title") {
        if p.title.is_none() {
            match val {
                ExValue::Text(t) => {
                    let mut q = p;
                    q.title = Some(string_of_chars(&t));
                    Some(q)
                },
                _ => None,
            }
        } else {
            None
        }
    } else if word_eq(&key, 0, klen, "alias") {
        if p.alias.is_none() {
            match val {
                ExValue::Text(t) => {
                    let mut q = p;
                    q.alias = Some(string_of_chars(&t));
                    Some(q)
                },
                _ => None,
            }
        } else {
            None
        }
    } else if word_eq(&key, 0, klen, "cover") {
        if p.cover.is_none() {
            match val {
                ExValue::Text(t) => {
                    let mut q = p;
                    q.cover = Some(string_of_chars(&t));
                    Some(q)
                },
                _ => None,
            }
        } else {
            None
        }
    } else if word_eq(&key, 0, klen, "tags") {
        if p.tags.is_none() {
            match val {
                ExValue::NoneV => {
                    let mut q = p;
                    q.tags = Some(None);
                    Some(q)
                },
                ExValue::SomeV(t) => {
                    let mut q = p;
                    q.tags = Some(Some(string_of_chars(&t)));
                    Some(q)
                },
                _ => None,
            }
        } else {
            None
        }
    } else if word_eq(&key, 0, klen, "published") {
        if p.published.is_none() {
            match val {
                ExValue::Text(t) => {
                    let mut q = p;
                    q.published = Some(string_of_chars(&t));
                    Some(q)
                },
                _ => None,
            }
        } else {
            None
        }
    } else if word_eq(&key, 0, klen, "teaser") {
        if p.teaser.is_none() {
            match val {
                ExValue::Text(t) => {
                    let mut q = p;
                    q.teaser = Some(string_of_chars(&t));
                    Some(q)
                },
                _ => None,
            }
        } else {
            None
        }
    } else {
        None
    }
}

/// Parses the text of a metadata record into an article's metadata.
///
/// Fails with InvalidMetadata when the text is not a full record of the
/// format, and with InvalidDate when the record is well formed but its
/// published field denotes no day.month.year calendar date.
pub fn parse_meta(s: &str) -> (r: Result<ArticleMeta, MetaError>)
    ensures
        match r {
            Ok(m) => meta_matches(s@, m@),
            Err(MetaError::InvalidMetadata) => meta_malformed(s@),
            Err(MetaError::InvalidDate) => meta_bad_date(s@),
        },
{
    let v = chars_vec(s);
    let n = v.len();
    let mut i = x_skip_ws(&v, 0);
    if i < n && ident_start_char(v[i]) {
        let e = x_ident_end(&v, i);
        i = x_skip_ws(&v, e);
    }
    if !(i < n && v[i] == '(') {
        return Err(MetaError::InvalidMetadata);
    }
    let fr = x_parse_all_fields(&v, i + 1);
    match fr {
        None => Err(MetaError::InvalidMetadata),
        Some((j, fields)) => {
            let j2 = x_skip_ws(&v, j);
            if j2 != n {
                return Err(MetaError::InvalidMetadata);
            }
            let ghost fsv = fields_view(fields@);
            proof {
                assert(record_fields(s@) == Some(fsv));
            }
            let mut fields = fields;
            let ghost mut processed: Seq<RawField> = Seq::<RawField>::empty();
            let mut p = PartialExec {
                title: None,
                alias: None,
                cover: None,
                tags: None,
                published: None,
                teaser: None,
            };
            proof {
                assert(p@ == empty_partial());
            }
            while fields.len() > 0
                invariant
                    fsv == processed + fields_view(fields@),
                    assemble(processed) == Some(p@),
                    record_fields(s@) == Some(fsv),
                decreases fields@.len(),
            {
                let ghost prev = fields@;
                let f = fields.remove(0);
                let ghost fv = f@;
                proof {
                    assert(fields_view(prev) =~= seq![fv] + fields_view(fields@)) by {
                        assert(fields@ =~= prev.remove(0));
                        assert forall|k: int| 0 <= k < prev.len() implies fields_view(prev)[k]
                            == (seq![fv] + fields_view(fields@))[k] by {
                            if k > 0 {
                                assert(fields@[k - 1] == prev[k]);
                            }
                        }
                    }
                    assert(processed.push(fv).drop_last() =~= processed);
                    assert(fsv =~= processed.push(fv) + fields_view(fields@)) by {
                        assert(fsv == processed + fields_view(prev));
                        assert(processed + (seq![fv] + fields_view(fields@)) =~= processed.push(
                            fv,
                        ) + fields_view(fields@));
                    }
                }
                match apply_field_exec(p, f) {
                    Some(q) => {
                        proof {
                            processed = processed.push(fv);
                        }
                        p = q;
                    },
                    None => {
                        proof {
                            assert(assemble(processed.push(fv)) is None);
                            lemma_assemble_none_extend(processed.push(fv), fields_view(fields@));
                        }
                        return Err(MetaError::InvalidMetadata);
                    },
                }
            }
            proof {
                assert(fields_view(fields@) =~= Seq::<RawField>::empty());
                assert(fsv =~= processed);
            }
            let PartialExec { title, alias, cover, tags, published, teaser } = p;
            let title = match title {
                Some(t) => t,
                None => {
                    return Err(MetaError::InvalidMetadata);
                },
            };
            let alias = match alias {
                Some(t) => t,
                None => {
                    return Err(MetaError::InvalidMetadata);
                },
            };
            let cover = match cover {
                Some(t) => t,
                None => {
                    return Err(MetaError::InvalidMetadata);
                },
            };
            let published = match published {
                Some(t) => t,
                None => {
                    return Err(MetaError::InvalidMetadata);
                },
            };
            let teaser = match teaser {
                Some(t) => t,
                None => {
                    return Err(MetaError::InvalidMetadata);
                },
            };
            let tags: Option<String> = match tags {
                Some(t) => t,
                None => None,
            };
            match parse_date(published.as_str()) {
                None => Err(MetaError::InvalidDate),
                Some(d) => Ok(
                    ArticleMeta {
                        title,
                        alias,
                        cover,
                        tags,
                        published,
                        teaser,
                        published_at: d,
                    },
                ),
            }
        },
    }
}

} // verus!
