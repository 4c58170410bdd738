//! Finding the translation keys that a source text uses.

use crate::error::SyncError;
use crate::flavor::{Flavor, KEY_GROUP};
use crate::keys::{captured_keys, KeySet};
use crate::pattern::{captures_of, compile, compiled, group_captures};
use regex::Regex;
use vstd::prelude::*;

verus! {

/// The keys that a text uses: what the key group of the flavor's pattern
/// captures in the successive matches of the pattern.
pub open spec fn keys_in(flavor: Flavor, text: Seq<char>) -> Set<Seq<char>> {
    captured_keys(group_captures(compiled(flavor.spec_pattern()), text, KEY_GROUP as nat))
}

/// A flavor with its pattern compiled, ready to search source texts.
#[derive(Debug)]
pub struct KeyExtractor {
    flavor: Flavor,
    regex: Regex,
}

impl KeyExtractor {
    #[verifier::type_invariant]
    spec fn made_from_flavor(self) -> bool {
        self.regex == compiled(self.flavor.spec_pattern())
    }

    /// The flavor whose keys are searched for.
    pub closed spec fn spec_flavor(&self) -> Flavor {
        self.flavor
    }

    /// Compiles the pattern of `flavor`. Whether a pattern compiles is for
    /// `regex` to say; an extractor that comes back is one for `flavor`.
    pub fn new(flavor: Flavor) -> (r: Result<KeyExtractor, SyncError>)
        ensures
            r matches Ok(extractor) ==> extractor.spec_flavor() == flavor,
            r matches Err(error) ==> error is InvalidPattern,
    {
        match compile(flavor.pattern()) {
            Ok(regex) => Ok(KeyExtractor { flavor, regex }),
            Err(cause) => Err(SyncError::InvalidPattern(cause)),
        }
    }

    /// The flavor whose keys are searched for.
    #[verifier::when_used_as_spec(spec_flavor)]
    pub fn flavor(&self) -> (flavor: Flavor)
        ensures
            flavor == self.spec_flavor(),
    {
        self.flavor
    }

    /// Puts the keys that `text` uses into `keys`.
    pub fn scan(&self, text: &str, keys: &mut KeySet)
        ensures
            final(keys)@ == old(keys)@.union(keys_in(self.flavor(), text@)),
    {
        proof {
            use_type_invariant(self);
        }
        keys.gather(captures_of(&self.regex, text, KEY_GROUP));
    }
}

} // verus!
