//! Configuration for a corpus build, gathered before any page is fetched.

use vstd::prelude::*;

verus! {

/// What a corpus build needs: the source URL, where to write the compiled
/// table (if anywhere), an optional bearer credential, and whether replies
/// are excluded from the fetch.
pub struct Builder<'a> {
    /// The paginated source endpoint.
    pub url: &'a str,
    /// Where the compiled table is written, if asked for.
    pub outdir: Option<String>,
    /// The bearer credential handed to the source, if any.
    pub private_key: Option<String>,
    /// Whether the source is asked to leave replies out.
    pub exclude_replies: bool,
}

impl<'a> Builder<'a> {
    /// A build of the given source, with no output directory, no credential,
    /// and replies included.
    pub fn new(url: &'a str) -> (r: Builder<'a>)
        ensures
            r.url@ == url@,
            r.outdir is None,
            r.private_key is None,
            !r.exclude_replies,
    {
        Builder { url, outdir: None, private_key: None, exclude_replies: false }
    }

    /// The same build, writing the compiled table under `outdir`.
    pub fn outdir(self, outdir: String) -> (r: Builder<'a>)
        ensures
            r.url@ == self.url@,
            r.outdir matches Some(o) && o@ == outdir@,
            r.private_key == self.private_key,
            r.exclude_replies == self.exclude_replies,
    {
        Builder { outdir: Some(outdir), ..self }
    }

    /// The same build, asking the source to leave replies out.
    pub fn exclude_replies(self) -> (r: Builder<'a>)
        ensures
            r.url@ == self.url@,
            r.outdir == self.outdir,
            r.private_key == self.private_key,
            r.exclude_replies,
    {
        Builder { exclude_replies: true, ..self }
    }

    /// The same build, authenticating with `key`.
    pub fn private_key(self, key: String) -> (r: Builder<'a>)
        ensures
            r.url@ == self.url@,
            r.outdir == self.outdir,
            r.private_key matches Some(k) && k@ == key@,
            r.exclude_replies == self.exclude_replies,
    {
        Builder { private_key: Some(key), ..self }
    }
}

} // verus!
