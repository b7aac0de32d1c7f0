//! The bundled JS/CSS assets the suite inlines into offline pages and serves
//! under `/assets`. Each bundle here is the empty text: a page that embeds
//! them carries empty `<script>` and `<style>` elements, while pages that
//! load the libraries from a CDN or a base URL are unaffected.
use vstd::prelude::*;

verus! {

/// The bundled mermaid.js library.
pub const MERMAID_JS: &'static str = "";

/// The bundled highlight.js library.
pub const HIGHLIGHT_JS: &'static str = "";

/// The highlight.js GitHub color theme (light).
pub const HLJS_CSS_LIGHT: &'static str = "";

/// The highlight.js GitHub color theme (dark).
pub const HLJS_CSS_DARK: &'static str = "";

} // verus!
