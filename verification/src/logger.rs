//! The tag-filtered logger's decision logic.
//!
//! A logger holds a list of allowed tags, each with a verbosity ceiling.
//! Whether a message is emitted is decided here; the actual writing of the
//! message is left to the surrounding program.

use vstd::prelude::*;

verus! {

/// A tag allow-list with per-tag verbosity ceilings.
pub struct Logger {
    pub log_tags: Vec<(String, usize)>,
}

/// The lower-case folding of a string's characters.
pub uninterp spec fn lower_of(s: Seq<char>) -> Seq<char>;

/// Relies on str::to_lowercase: the result depends on the characters of
/// the argument alone.
#[verifier::external_body]
fn lowercase(s: &str) -> (r: String)
    ensures
        r@ == lower_of(s@),
{
    s.to_lowercase()
}

impl Logger {
    /// Whether a message with this tag is emitted: the tag matches one of
    /// the configured tags, compared case-insensitively.
    pub fn should_log(&self, tag: &str) -> (r: bool)
        ensures
            r == exists|i: int|
                0 <= i < self.log_tags@.len() && lower_of(#[trigger] self.log_tags@[i].0@)
                    == lower_of(tag@),
    {
        let lowered = lowercase(tag);
        let mut i: usize = 0;
        while i < self.log_tags.len()
            invariant
                i <= self.log_tags@.len(),
                lowered@ == lower_of(tag@),
                forall|j: int|
                    0 <= j < i ==> lower_of(#[trigger] self.log_tags@[j].0@) != lower_of(tag@),
            decreases self.log_tags@.len() - i,
        {
            let entry = lowercase(self.log_tags[i].0.as_str());
            if entry == lowered {
                return true;
            }
            i += 1;
        }
        false
    }

    /// Whether a message with this tag and verbosity is emitted: the tag
    /// matches one of the configured tags case-insensitively, with the
    /// message's verbosity within that tag's ceiling.
    pub fn should_log_with_check(&self, tag: &str, verbosity: usize) -> (r: bool)
        ensures
            r == exists|i: int|
                0 <= i < self.log_tags@.len() && lower_of(#[trigger] self.log_tags@[i].0@)
                    == lower_of(tag@) && verbosity <= self.log_tags@[i].1,
    {
        let lowered = lowercase(tag);
        let mut i: usize = 0;
        while i < self.log_tags.len()
            invariant
                i <= self.log_tags@.len(),
                lowered@ == lower_of(tag@),
                forall|j: int|
                    0 <= j < i ==> !(lower_of(#[trigger] self.log_tags@[j].0@) == lower_of(tag@)
                        && verbosity <= self.log_tags@[j].1),
            decreases self.log_tags@.len() - i,
        {
            let entry = lowercase(self.log_tags[i].0.as_str());
            if entry == lowered && verbosity <= self.log_tags[i].1 {
                return true;
            }
            i += 1;
        }
        false
    }
}

} // verus!
