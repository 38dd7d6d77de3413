use vstd::prelude::*;
use vstd::string::*;

use crate::text::push_char;

verus! {

// ---------------------------------------------------------------------------
// The feedback form: two honeypot fields that must stay empty, and a
// message that is cleaned before it is stored.
// ---------------------------------------------------------------------------

/// What the feedback form posts.
#[derive(Debug)]
pub struct FeedbackData {
    pub message: String,
    pub csrf: String,
    pub captcha: String,
}

/// Why a feedback post is turned away.
#[derive(Debug)]
pub enum FeedbackError {
    InvalidCaptcha,
    InvalidCsrf,
    NoMessage,
    Fuck(String),
}

/// Whether a character counts as alphanumeric.  The classification
/// depends on the character alone.
pub uninterp spec fn alphanumeric(c: char) -> bool;

/// Whether a character counts as whitespace.  The classification
/// depends on the character alone.
pub uninterp spec fn whitespace(c: char) -> bool;

/// Relies on char::is_alphanumeric: a classification of the character
/// alone.
#[verifier::external_body]
fn char_alphanumeric(c: char) -> (r: bool)
    ensures
        r == alphanumeric(c),
{
    c.is_alphanumeric()
}

/// Relies on char::is_whitespace: a classification of the character
/// alone.
#[verifier::external_body]
fn char_whitespace(c: char) -> (r: bool)
    ensures
        r == whitespace(c),
{
    c.is_whitespace()
}

/// Punctuation a message may keep.
pub open spec fn allowed_punctuation(c: char) -> bool {
    c == '.' || c == '(' || c == ')' || c == ',' || c == '-' || c == '+' || c == '!' || c == '?'
        || c == ':' || c == '@'
}

/// A message keeps letters, digits, whitespace and a little
/// punctuation; everything else becomes '*'.
pub open spec fn kept(c: char) -> bool {
    alphanumeric(c) || whitespace(c) || allowed_punctuation(c)
}

pub open spec fn sanatized(s: Seq<char>) -> Seq<char> {
    Seq::new(
        s.len(),
        |i: int|
            if kept(s[i]) {
                s[i]
            } else {
                '*'
            },
    )
}

fn punct_char(c: char) -> (r: bool)
    ensures
        r == allowed_punctuation(c),
{
    c == '.' || c == '(' || c == ')' || c == ',' || c == '-' || c == '+' || c == '!' || c == '?'
        || c == ':' || c == '@'
}

/// Cleans a message: keeps letters, digits, whitespace and the allowed
/// punctuation, and writes '*' for everything else.
pub fn sanatize(data: &str) -> (r: String)
    ensures
        r@ == sanatized(data@),
{
    let n = data.unicode_len();
    let mut out = String::new();
    let mut i: usize = 0;
    proof {
        assert(out@ =~= sanatized(data@.subrange(0, 0)));
    }
    while i < n
        invariant
            i <= n,
            n == data@.len(),
            out@ == sanatized(data@.subrange(0, i as int)),
        decreases n - i,
    {
        let c = data.get_char(i);
        if char_alphanumeric(c) || char_whitespace(c) || punct_char(c) {
            push_char(&mut out, c);
        } else {
            push_char(&mut out, '*');
        }
        proof {
            assert(out@ =~= sanatized(data@.subrange(0, i as int + 1))) by {
                let pre = data@.subrange(0, i as int);
                let cur = data@.subrange(0, i as int + 1);
                assert forall|k: int| 0 <= k < cur.len() implies out@[k] == sanatized(cur)[k] by {
                    if k < pre.len() {
                        assert(sanatized(pre)[k] == out@[k]);
                        assert(cur[k] == pre[k]);
                    } else {
                        assert(cur[k] == c);
                    }
                }
            }
        }
        i += 1;
    }
    proof {
        assert(data@.subrange(0, n as int) =~= data@);
    }
    out
}

impl FeedbackData {
    /// Turns a post away when a honeypot field is filled or the message
    /// is empty.
    pub fn validate(&self) -> (r: Result<(), FeedbackError>)
        ensures
            match r {
                Ok(()) => self.captcha@.len() == 0 && self.csrf@.len() == 0 && self.message@.len()
                    > 0,
                Err(FeedbackError::InvalidCaptcha) => self.captcha@.len() > 0,
                Err(FeedbackError::InvalidCsrf) => self.captcha@.len() == 0 && self.csrf@.len()
                    > 0,
                Err(FeedbackError::NoMessage) => self.captcha@.len() == 0 && self.csrf@.len() == 0
                    && self.message@.len() == 0,
                Err(FeedbackError::Fuck(_)) => false,
            },
    {
        if !self.captcha.as_str().is_empty() {
            return Err(FeedbackError::InvalidCaptcha);
        }
        if !self.csrf.as_str().is_empty() {
            return Err(FeedbackError::InvalidCsrf);
        }
        if self.message.as_str().is_empty() {
            return Err(FeedbackError::NoMessage);
        }
        Ok(())
    }

    /// The record appended to the feedback file: a separator line, then
    /// the cleaned message.
    pub fn feedback_record(&self) -> (r: String)
        ensures
            r@ == "\n-----------------------------------\n"@ + sanatized(self.message@),
    {
        let mut out = "\n-----------------------------------\n".to_owned();
        let cleaned = sanatize(self.message.as_str());
        out.append(cleaned.as_str());
        out
    }
}

} // verus!
