//! Closures that answer questions by name.

use vstd::prelude::*;

use crate::text::opt_text;

verus! {

/// A partial function from texts to texts.
pub type Lookup = spec_fn(Seq<char>) -> Option<Seq<char>>;

/// The closure answers as `lookup` does.
pub open spec fn answers_as<F: Fn(&str) -> Option<String>>(f: F, lookup: Lookup) -> bool {
    forall|p: &str, o: Option<String>| #[trigger]
        call_ensures(f, (p,), o) ==> opt_text(o) == lookup(p@)
}

} // verus!
