//! A tiny web dev server with live reload: the verified core.
//!
//! `text` holds character-sequence helpers, `path` the extension rules of
//! file paths, `server` the request-side logic (header parsing, script
//! injection, replies) and `watcher` the file-change side (event filtering
//! and debouncing).

use vstd::prelude::*;

pub mod path;
pub mod server;
pub mod text;
pub mod watcher;
pub mod watch_loop;

verus! {

/// How to reload a browser tab on file change
#[derive(Clone, Copy, PartialEq, Eq, Debug, Structural)]
pub enum ReloadType {
    /// CSS-only change: hot-swap stylesheets, no full page reload
    Css,
    /// Other changes: full page reload
    Page,
}

impl ReloadType {
    /// The name a reload type goes by, as a character sequence.
    pub open spec fn name(self) -> Seq<char> {
        match self {
            ReloadType::Css => "css"@,
            ReloadType::Page => "page"@,
        }
    }

    /// Name used as the SSE event name and `data:` payload
    pub fn as_str(self) -> (res: &'static str)
        ensures
            res@ == self.name(),
    {
        match self {
            ReloadType::Css => "css",
            ReloadType::Page => "page",
        }
    }
}

/// The two reload types go by different names, so a browser can tell the
/// events apart.
pub proof fn lemma_reload_names_distinct()
    ensures
        ReloadType::Css.name() != ReloadType::Page.name(),
{
    reveal_strlit("css");
    reveal_strlit("page");
    assert(ReloadType::Css.name().len() != ReloadType::Page.name().len());
}

} // verus!
