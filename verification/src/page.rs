//! Complete HTML pages around a rendered body: light or dark styling, and
//! the mermaid / highlight.js libraries from a CDN, inlined, or served from
//! a caller-controlled base URL — only when the document needs them.
use vstd::prelude::*;
use crate::text::{empty_string, push_str, seq_contains, str_contains};
use crate::uri::{escape_html, spec_escape_html};
use crate::assets::{HIGHLIGHT_JS, HLJS_CSS_DARK, HLJS_CSS_LIGHT, MERMAID_JS};

verus! {

/// Where a generated page loads mermaid.js / highlight.js from.
#[derive(Clone)]
pub enum AssetMode {
    /// Public CDNs — for HTML meant to be opened in a normal browser online.
    Cdn,
    /// The bundles are inlined into the page itself — a single self-contained
    /// file that renders offline.
    Embedded,
    /// Served from a caller-controlled base URL (no trailing slash), e.g. a
    /// WebView virtual host like `https://mdfiles.assets`.
    BaseUrl(String),
}

/// The view of an [`AssetMode`].
pub enum AssetModeV {
    Cdn,
    Embedded,
    BaseUrl(Seq<char>),
}

impl View for AssetMode {
    type V = AssetModeV;

    open spec fn view(&self) -> AssetModeV {
        match self {
            AssetMode::Cdn => AssetModeV::Cdn,
            AssetMode::Embedded => AssetModeV::Embedded,
            AssetMode::BaseUrl(b) => AssetModeV::BaseUrl(b@),
        }
    }
}

/// Options for assembling a complete HTML page around a rendered body.
pub struct PageOptions<'a> {
    /// Dark or light styling (colors, hljs theme, mermaid theme).
    pub dark_mode: bool,
    /// The page `<title>`; usually the document filename.
    pub title: &'a str,
    /// Where mermaid.js / highlight.js come from.
    pub assets: AssetMode,
    /// Extra JavaScript appended at the end of `<body>` (viewer glue). Empty
    /// for plain CLI output.
    pub extra_js: &'a str,
}

impl<'a> Default for PageOptions<'a> {
    fn default() -> (r: Self)
        ensures
            r.dark_mode == false,
            r.title@ == "Markdown"@,
            r.assets@ == AssetModeV::Cdn,
            r.extra_js@ == ""@,
    {
        PageOptions { dark_mode: false, title: "Markdown", assets: AssetMode::Cdn, extra_js: "" }
    }
}

/// Text of the page template, piece 0.
pub const PAGE_0: &'static str = "<!DOCTYPE html>\n<html>\n<head>\n<meta charset=\"UTF-8\">\n<title>";

/// Text of the page template, piece 1.
pub const PAGE_1: &'static str = "</title>\n<style>\nbody {\n    font-family: -apple-system, BlinkMacSystemFont, \"Segoe UI\", Helvetica, Arial, sans-serif;\n    font-size: 14px;\n    line-height: 1.6;\n    padding: 20px;\n    max-width: 900px;\n    margin: 0 auto;\n    background-color: ";

/// Text of the page template, piece 2.
pub const PAGE_2: &'static str = ";\n    color: ";

/// Text of the page template, piece 3.
pub const PAGE_3: &'static str = ";\n}\na { color: ";

/// Text of the page template, piece 4.
pub const PAGE_4: &'static str = "; text-decoration: none; cursor: pointer; }\na:hover { text-decoration: underline; }\ncode {\n    background-color: ";

/// Text of the page template, piece 5.
pub const PAGE_5: &'static str = ";\n    padding: 0.2em 0.4em;\n    border-radius: 3px;\n    font-family: \"Cascadia Code\", \"Fira Code\", Consolas, monospace;\n    font-size: 85%;\n}\npre {\n    background-color: transparent;\n    padding: 0;\n    overflow: auto;\n    border-radius: 6px;\n}\npre code {\n    display: block;\n    padding: 16px;\n    background-color: ";

/// Text of the page template, piece 6.
pub const PAGE_6: &'static str = ";\n    border-radius: 6px;\n    overflow-x: auto;\n    font-size: 90%;\n}\n.mermaid {\n    background-color: transparent;\n    text-align: center;\n    line-height: normal;\n    margin: 1em 0;\n}\n.mermaid svg { max-width: 100%; height: auto; }\nblockquote {\n    border-left: 4px solid ";

/// Text of the page template, piece 7.
pub const PAGE_7: &'static str = ";\n    margin: 0;\n    padding-left: 16px;\n    color: ";

/// Text of the page template, piece 8.
pub const PAGE_8: &'static str = ";\n    opacity: 0.8;\n}\ntable {\n    border-collapse: collapse;\n    width: 100%;\n}\nth, td {\n    border: 1px solid ";

/// Text of the page template, piece 9.
pub const PAGE_9: &'static str = ";\n    padding: 8px 12px;\n    text-align: left;\n}\nth {\n    background-color: ";

/// Text of the page template, piece 10.
pub const PAGE_10: &'static str = ";\n}\nimg {\n    max-width: 100%;\n}\nh1, h2 {\n    border-bottom: 1px solid ";

/// Text of the page template, piece 11.
pub const PAGE_11: &'static str = ";\n    padding-bottom: 0.3em;\n}\nhr {\n    border: none;\n    border-top: 1px solid ";

/// Text of the page template, piece 12.
pub const PAGE_12: &'static str = ";\n}\ninput[type=\"checkbox\"] {\n    margin-right: 0.5em;\n}\n";

/// Text of the page template, piece 13.
pub const PAGE_13: &'static str = "\n</style>\n</head>\n<body>\n";

/// Text of the page template, piece 14.
pub const PAGE_14: &'static str = "\n";

/// Text of the page template, piece 15.
pub const PAGE_15: &'static str = "\n";

/// Text of the page template, piece 16.
pub const PAGE_16: &'static str = "\n</body>\n</html>";

/// Text of the library initializer script, piece 0.
pub const INIT_0: &'static str = "<script>\n(function() {\n    function run() {\n        try { if (window.hljs) { hljs.configure({ignoreUnescapedHTML: true}); hljs.highlightAll(); } } catch (e) {}\n        try {\n            if (window.mermaid) {\n                mermaid.initialize({ startOnLoad: false, securityLevel: 'loose', theme: '";

/// Text of the library initializer script, piece 1.
pub const INIT_1: &'static str = "' });\n                mermaid.run({ querySelector: '.mermaid' });\n            }\n        } catch (e) {}\n    }\n    if (document.readyState !== 'loading') run();\n    else document.addEventListener('DOMContentLoaded', run);\n})();\n</script>\n";

/// The page background color.
pub open spec fn bg_color(dark: bool) -> Seq<char> {
    if dark { "#1e1e1e"@ } else { "#ffffff"@ }
}

/// The text color.
pub open spec fn text_color(dark: bool) -> Seq<char> {
    if dark { "#d4d4d4"@ } else { "#24292e"@ }
}

/// The background of code.
pub open spec fn code_bg(dark: bool) -> Seq<char> {
    if dark { "#2d2d2d"@ } else { "#f6f8fa"@ }
}

/// The link color.
pub open spec fn link_color(dark: bool) -> Seq<char> {
    if dark { "#58a6ff"@ } else { "#0366d6"@ }
}

/// The color of borders and rules.
pub open spec fn border_color(dark: bool) -> Seq<char> {
    if dark { "#444"@ } else { "#e1e4e8"@ }
}

/// The body holds a fenced code block for highlight.js.
pub open spec fn needs_hljs(content: Seq<char>) -> bool {
    seq_contains(content, "<pre><code"@)
}

/// The body holds a mermaid diagram container.
pub open spec fn needs_mermaid(content: Seq<char>) -> bool {
    seq_contains(content, "class=\"mermaid\""@)
}

/// The highlight.js color theme, matched to the page's light/dark mode, when
/// the body needs it.
pub open spec fn hljs_theme_css(content: Seq<char>, dark: bool) -> Seq<char> {
    if needs_hljs(content) {
        if dark { HLJS_CSS_DARK@ } else { HLJS_CSS_LIGHT@ }
    } else {
        ""@
    }
}

/// The `<script>` tag that loads one library.
pub open spec fn library_tag(assets: AssetModeV, bundle: Seq<char>, cdn_url: Seq<char>, file: Seq<char>) -> Seq<char> {
    match assets {
        AssetModeV::Embedded => "<script>"@ + bundle + "</script>\n"@,
        AssetModeV::Cdn => "<script src=\""@ + cdn_url + "\"></script>\n"@,
        AssetModeV::BaseUrl(base) => "<script src=\""@ + base + "/"@ + file + "\"></script>\n"@,
    }
}

/// Where highlight.js is loaded from a CDN.
pub open spec fn hljs_cdn() -> Seq<char> {
    "https://cdnjs.cloudflare.com/ajax/libs/highlight.js/11.9.0/highlight.min.js"@
}

/// Where mermaid is loaded from a CDN.
pub open spec fn mermaid_cdn() -> Seq<char> {
    "https://cdn.jsdelivr.net/npm/mermaid@11/dist/mermaid.min.js"@
}

/// The mermaid theme for the page mode.
pub open spec fn mermaid_theme(dark: bool) -> Seq<char> {
    if dark { "dark"@ } else { "default"@ }
}

/// Library `<script>` tags for what the body needs, then a single
/// initializer that runs once the DOM is ready.
pub open spec fn feature_scripts(content: Seq<char>, dark: bool, assets: AssetModeV) -> Seq<char> {
    (if needs_hljs(content) {
        library_tag(assets, HIGHLIGHT_JS@, hljs_cdn(), "highlight.min.js"@)
    } else {
        ""@
    }) + (if needs_mermaid(content) {
        library_tag(assets, MERMAID_JS@, mermaid_cdn(), "mermaid.min.js"@)
    } else {
        ""@
    }) + (if needs_hljs(content) || needs_mermaid(content) {
        INIT_0@ + mermaid_theme(dark) + INIT_1@
    } else {
        ""@
    })
}

/// The complete page around `content`.
pub open spec fn spec_wrap_html(
    content: Seq<char>,
    dark: bool,
    title: Seq<char>,
    assets: AssetModeV,
    extra_js: Seq<char>,
) -> Seq<char> {
    PAGE_0@
        + spec_escape_html(title)
        + PAGE_1@
        + bg_color(dark)
        + PAGE_2@
        + text_color(dark)
        + PAGE_3@
        + link_color(dark)
        + PAGE_4@
        + code_bg(dark)
        + PAGE_5@
        + code_bg(dark)
        + PAGE_6@
        + border_color(dark)
        + PAGE_7@
        + text_color(dark)
        + PAGE_8@
        + border_color(dark)
        + PAGE_9@
        + code_bg(dark)
        + PAGE_10@
        + border_color(dark)
        + PAGE_11@
        + border_color(dark)
        + PAGE_12@
        + hljs_theme_css(content, dark)
        + PAGE_13@
        + content
        + PAGE_14@
        + feature_scripts(content, dark, assets)
        + PAGE_15@
        + extra_js
        + PAGE_16@
}

/// A page whose body needs neither highlight.js nor mermaid pulls in no
/// library: no script tags, no initializer and no highlight theme.
pub proof fn law_wrap_omits_libraries_when_unneeded(content: Seq<char>, dark: bool, assets: AssetModeV)
    requires
        !needs_hljs(content),
        !needs_mermaid(content),
    ensures
        feature_scripts(content, dark, assets) == Seq::<char>::empty(),
        hljs_theme_css(content, dark) == Seq::<char>::empty(),
{
    reveal_strlit("");
    assert(""@ + ""@ + ""@ =~= Seq::<char>::empty());
}

fn library_tag_text(out: &mut String, assets: &AssetMode, bundle: &str, cdn_url: &str, file: &str)
    ensures
        final(out)@ == old(out)@ + library_tag(assets@, bundle@, cdn_url@, file@),
{
    match assets {
        AssetMode::Embedded => {
            push_str(out, "<script>");
            push_str(out, bundle);
            push_str(out, "</script>\n");
        },
        AssetMode::Cdn => {
            push_str(out, "<script src=\"");
            push_str(out, cdn_url);
            push_str(out, "\"></script>\n");
        },
        AssetMode::BaseUrl(base) => {
            push_str(out, "<script src=\"");
            push_str(out, base.as_str());
            push_str(out, "/");
            push_str(out, file);
            push_str(out, "\"></script>\n");
        },
    }
}

/// Wrap a rendered body in a complete standalone HTML document.
pub fn wrap_html(content: &str, opts: &PageOptions) -> (page: String)
    ensures
        page@ == spec_wrap_html(content@, opts.dark_mode, opts.title@, opts.assets@, opts.extra_js@),
{
    proof {
        reveal_strlit("");
    }
    let dark = opts.dark_mode;
    let colors: (&str, &str, &str, &str, &str) = if dark {
        ("#1e1e1e", "#d4d4d4", "#58a6ff", "#2d2d2d", "#444")
    } else {
        ("#ffffff", "#24292e", "#0366d6", "#f6f8fa", "#e1e4e8")
    };
    let needs_h = str_contains(content, "<pre><code");
    let needs_m = str_contains(content, "class=\"mermaid\"");
    let css: &str = if needs_h {
        if dark { HLJS_CSS_DARK } else { HLJS_CSS_LIGHT }
    } else {
        ""
    };
    let mut scripts = empty_string();
    if needs_h {
        library_tag_text(
            &mut scripts,
            &opts.assets,
            HIGHLIGHT_JS,
            "https://cdnjs.cloudflare.com/ajax/libs/highlight.js/11.9.0/highlight.min.js",
            "highlight.min.js",
        );
    }
    let ghost after_h = scripts@;
    assert(after_h == (if needs_hljs(content@) {
        library_tag(opts.assets@, HIGHLIGHT_JS@, hljs_cdn(), "highlight.min.js"@)
    } else {
        ""@
    }));
    if needs_m {
        library_tag_text(
            &mut scripts,
            &opts.assets,
            MERMAID_JS,
            "https://cdn.jsdelivr.net/npm/mermaid@11/dist/mermaid.min.js",
            "mermaid.min.js",
        );
    }
    let ghost after_m = scripts@;
    if needs_h || needs_m {
        push_str(&mut scripts, INIT_0);
        push_str(&mut scripts, if dark { "dark" } else { "default" });
        push_str(&mut scripts, INIT_1);
    }
    proof {
        assert(scripts@ =~= feature_scripts(content@, dark, opts.assets@));
    }
    let esc_title = escape_html(opts.title);
    let mut page = empty_string();
    push_str(&mut page, PAGE_0);
    push_str(&mut page, esc_title.as_str());
    push_str(&mut page, PAGE_1);
    push_str(&mut page, colors.0);
    push_str(&mut page, PAGE_2);
    push_str(&mut page, colors.1);
    push_str(&mut page, PAGE_3);
    push_str(&mut page, colors.2);
    push_str(&mut page, PAGE_4);
    push_str(&mut page, colors.3);
    push_str(&mut page, PAGE_5);
    push_str(&mut page, colors.3);
    push_str(&mut page, PAGE_6);
    push_str(&mut page, colors.4);
    push_str(&mut page, PAGE_7);
    push_str(&mut page, colors.1);
    push_str(&mut page, PAGE_8);
    push_str(&mut page, colors.4);
    push_str(&mut page, PAGE_9);
    push_str(&mut page, colors.3);
    push_str(&mut page, PAGE_10);
    push_str(&mut page, colors.4);
    push_str(&mut page, PAGE_11);
    push_str(&mut page, colors.4);
    push_str(&mut page, PAGE_12);
    push_str(&mut page, css);
    push_str(&mut page, PAGE_13);
    push_str(&mut page, content);
    push_str(&mut page, PAGE_14);
    push_str(&mut page, scripts.as_str());
    push_str(&mut page, PAGE_15);
    push_str(&mut page, opts.extra_js);
    push_str(&mut page, PAGE_16);
    page
}

} // verus!
