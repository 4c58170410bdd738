//! The dialects whose translation calls the library knows: for each, the
//! extension of its source files and the pattern of a call.

use crate::order::same_text;
use vstd::prelude::*;

verus! {

/// The extension of Laravel's source files.
pub const LARAVEL_EXTENSION: &'static str = "php";

/// A call of `@lang` or of `__` with a quoted first argument, which group 1
/// captures; further arguments may follow it. The `__` must begin a name: a
/// call of a longer name that ends in `__` is no translation call.
pub const LARAVEL_PATTERN: &'static str =
    r#"(?:@lang|\b__)\s*\(\s*['"](.*?)['"]\s*(?:,.*)?\s*\)"#;

/// The name by which Laravel's dialect is selected.
pub const LARAVEL_NAME: &'static str = "laravel";

/// The group of a flavor's pattern that captures the translation key.
pub const KEY_GROUP: usize = 1;

/// A dialect of translation calls.
#[derive(Clone, Copy, Debug, PartialEq, Eq, Structural)]
pub enum Flavor {
    Laravel,
}

impl Flavor {
    /// The name by which the flavor is selected.
    pub open spec fn spec_name(self) -> Seq<char> {
        match self {
            Flavor::Laravel => LARAVEL_NAME@,
        }
    }

    /// The extension of the flavor's source files.
    pub open spec fn spec_extension(self) -> Seq<char> {
        match self {
            Flavor::Laravel => LARAVEL_EXTENSION@,
        }
    }

    /// The pattern of a translation call in the flavor's source files.
    pub open spec fn spec_pattern(self) -> Seq<char> {
        match self {
            Flavor::Laravel => LARAVEL_PATTERN@,
        }
    }

    /// The name by which the flavor is selected.
    pub fn name(&self) -> (name: &'static str)
        ensures
            name@ == self.spec_name(),
    {
        match self {
            Flavor::Laravel => LARAVEL_NAME,
        }
    }

    /// The extension of the flavor's source files.
    pub fn extension(&self) -> (extension: &'static str)
        ensures
            extension@ == self.spec_extension(),
    {
        match self {
            Flavor::Laravel => LARAVEL_EXTENSION,
        }
    }

    /// The pattern of a translation call in the flavor's source files.
    pub fn pattern(&self) -> (pattern: &'static str)
        ensures
            pattern@ == self.spec_pattern(),
    {
        match self {
            Flavor::Laravel => LARAVEL_PATTERN,
        }
    }

    /// The flavor selected by `name`, if there is one.
    pub fn from_name(name: &str) -> (flavor: Option<Flavor>)
        ensures
            match flavor {
                Some(found) => found.spec_name() == name@,
                None => forall|other: Flavor| other.spec_name() != name@,
            },
    {
        if same_text(name, LARAVEL_NAME) {
            Some(Flavor::Laravel)
        } else {
            None
        }
    }
}

impl Default for Flavor {
    /// The flavor used where none is selected.
    fn default() -> (flavor: Flavor)
        ensures
            flavor == Flavor::Laravel,
    {
        Flavor::Laravel
    }
}

} // verus!
