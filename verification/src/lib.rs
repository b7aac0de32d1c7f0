//! md_core: the shared markdown-to-HTML engine of the md-files tool suite,
//! with the command lines and decisions of its three tools.
//!
//! * GitHub Flavored Markdown (tables, footnotes, strikethrough, task lists)
//!   through pulldown-cmark ([`markdown`], [`render`], [`plain`]);
//! * mermaid fences become `<pre class="mermaid">` diagram containers, other
//!   fenced code keeps its `language-…` class for highlight.js;
//! * local images resolve against the document's folder and are served from
//!   a document base URL, under a serve root widened to the deepest common
//!   ancestor of the document's folder and its images ([`render`]);
//! * local `.md` links can be routed through a viewer's own URL scheme
//!   ([`viewer`]);
//! * complete pages with light/dark styling, pulling in mermaid and
//!   highlight.js only when the document needs them ([`page`]);
//! * working notes stripped from the deliverable ([`notes`]);
//! * the tools' command lines, conversions and reader decisions ([`cli`],
//!   [`convert`], [`embed`], [`layout`]).
//!
//! Paths follow Unix or Windows syntax, as the caller's [`paths::PathStyle`]
//! says; nothing here touches the disk.
use vstd::prelude::*;

pub mod text;
pub mod uri;
pub mod base64;
pub mod paths;
pub mod markdown;
pub mod render;
pub mod viewer;
pub mod assets;
pub mod page;
pub mod plain;
pub mod embed;
pub mod cli;
pub mod notes;
pub mod convert;
pub mod layout;

verus! {

} // verus!
