//! Regular expressions: what a group of a match captures.

use vstd::prelude::*;

verus! {

/// What matching a pattern against a text came to.
#[derive(Debug)]
pub enum Capture {
    /// The pattern is no regular expression.
    BadPattern,
    /// The pattern does not match the text.
    NoMatch,
    /// The pattern matches; what the group captured, if it took part.
    Group(Option<String>),
}

/// A capture as plain text.
pub enum CaptureView {
    BadPattern,
    NoMatch,
    Group(Option<Seq<char>>),
}

impl Capture {
    pub open spec fn view(&self) -> CaptureView {
        match self {
            Capture::BadPattern => CaptureView::BadPattern,
            Capture::NoMatch => CaptureView::NoMatch,
            Capture::Group(Some(g)) => CaptureView::Group(Some(g@)),
            Capture::Group(None) => CaptureView::Group(None),
        }
    }
}

/// What the group `index` of the leftmost match of `pattern` in `text`
/// captures, as `regex::Regex::captures` finds it.
pub uninterp spec fn regex_group(pattern: Seq<char>, text: Seq<char>, index: usize) -> CaptureView;

/// Compiles `pattern` with `regex::Regex::new` and calls
/// `regex::Regex::captures` on `text`. The result tells a pattern that
/// does not compile from one that does not match, and hands out what the
/// group `index` of the leftmost match captured; the contract only gives
/// that result its name.
#[verifier::external_body]
pub(crate) fn capture_group(pattern: &str, text: &str, index: usize) -> (r: Capture)
    ensures
        r@ == regex_group(pattern@, text@, index),
{
    match regex::Regex::new(pattern) {
        Err(_) => Capture::BadPattern,
        Ok(re) => match re.captures(text) {
            None => Capture::NoMatch,
            Some(c) => Capture::Group(c.get(index).map(|m| m.as_str().to_owned())),
        },
    }
}

} // verus!
