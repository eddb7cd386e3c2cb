//! The page round a document's HTML.
use vstd::prelude::*;

use crate::assets::{LIVE_JS, REVIEW_JS, STYLE_CSS, VIEWER_JS};
use crate::text::{chars_of, decimal, html_escaped, push_decimal, push_html_escaped};

verus! {

/// What a page may load. Images come from the page itself or from where it was
/// served, and from other hosts only where `allow_remote_images` says so.
pub open spec fn content_security_policy(allow_remote_images: bool) -> Seq<char> {
    if allow_remote_images {
        "default-src 'none'; style-src 'unsafe-inline'; script-src 'unsafe-inline'; img-src data: 'self' http: https:; connect-src 'self'; form-action 'none'"@
    } else {
        "default-src 'none'; style-src 'unsafe-inline'; script-src 'unsafe-inline'; img-src data: 'self'; connect-src 'self'; form-action 'none'"@
    }
}

/// The page up to its `<body>` tag.
pub open spec fn head_text(title: Seq<char>, allow_remote_images: bool) -> Seq<char> {
    "<!doctype html>\n<html lang=\"en\">\n<head>\n<meta charset=\"utf-8\">\n<meta name=\"viewport\" content=\"width=device-width, initial-scale=1\">\n<meta http-equiv=\"Content-Security-Policy\" content=\""@
        + content_security_policy(allow_remote_images) + "\">\n<title>"@ + html_escaped(title)
        + "</title>\n<style>"@ + STYLE_CSS@ + "</style>\n</head>\n"@
}

/// The document with the pane for comments beside it, and the scripts.
pub open spec fn live_section(body_html: Seq<char>, version: u64) -> Seq<char> {
    "<div class=\"layout\">\n<main class=\"markdown-body doc\">\n"@ + body_html
        + "\n</main>\n<div class=\"splitter\" id=\"splitter\"></div>\n<aside class=\"review\" id=\"review\"></aside>\n</div>\n<script>window.__mdviewVersion=\""@
        + decimal(version as nat) + "\";</script>\n<script>\n"@ + VIEWER_JS@
        + "\n</script>\n<script>\n"@ + LIVE_JS@ + "\n</script>\n<script>\n"@ + REVIEW_JS@
        + "\n</script>"@
}

/// The document alone.
pub open spec fn static_section(body_html: Seq<char>) -> Seq<char> {
    "<main class=\"markdown-body\">\n"@ + body_html + "\n</main>"@
}

/// The `<body>` tag. A live page says how it is shown.
pub open spec fn body_tag(live: Option<u64>, browser_mode: bool) -> Seq<char> {
    if live is None {
        "<body>\n"@
    } else if browser_mode {
        "<body data-mode=\"browser\">\n"@
    } else {
        "<body data-mode=\"native\">\n"@
    }
}

/// A whole page.
pub open spec fn page_text(
    title: Seq<char>,
    body_html: Seq<char>,
    live: Option<u64>,
    allow_remote_images: bool,
    browser_mode: bool,
) -> Seq<char> {
    head_text(title, allow_remote_images) + body_tag(live, browser_mode) + (match live {
        Some(version) => live_section(body_html, version),
        None => static_section(body_html),
    }) + "\n</body>\n</html>\n"@
}

/// Appends the page up to its `<body>` tag.
fn push_head(out: &mut String, title: &str, allow_remote_images: bool)
    ensures
        final(out)@ == old(out)@ + head_text(title@, allow_remote_images),
{
    out.append(
        "<!doctype html>\n<html lang=\"en\">\n<head>\n<meta charset=\"utf-8\">\n<meta name=\"viewport\" content=\"width=device-width, initial-scale=1\">\n<meta http-equiv=\"Content-Security-Policy\" content=\"",
    );
    if allow_remote_images {
        out.append(
            "default-src 'none'; style-src 'unsafe-inline'; script-src 'unsafe-inline'; img-src data: 'self' http: https:; connect-src 'self'; form-action 'none'",
        );
    } else {
        out.append(
            "default-src 'none'; style-src 'unsafe-inline'; script-src 'unsafe-inline'; img-src data: 'self'; connect-src 'self'; form-action 'none'",
        );
    }
    out.append("\">\n<title>");
    let title = chars_of(title);
    push_html_escaped(out, title.as_slice());
    out.append("</title>\n<style>");
    out.append(STYLE_CSS);
    out.append("</style>\n</head>\n");
    assert(out@ =~= old(out)@ + head_text(title@, allow_remote_images));
}

/// Appends the document with the pane for comments beside it, and the scripts.
fn push_live_section(out: &mut String, body_html: &str, version: u64)
    ensures
        final(out)@ == old(out)@ + live_section(body_html@, version),
{
    out.append("<div class=\"layout\">\n<main class=\"markdown-body doc\">\n");
    out.append(body_html);
    out.append(
        "\n</main>\n<div class=\"splitter\" id=\"splitter\"></div>\n<aside class=\"review\" id=\"review\"></aside>\n</div>\n<script>window.__mdviewVersion=\"",
    );
    push_decimal(out, version as u128);
    out.append("\";</script>\n<script>\n");
    out.append(VIEWER_JS);
    out.append("\n</script>\n<script>\n");
    out.append(LIVE_JS);
    out.append("\n</script>\n<script>\n");
    out.append(REVIEW_JS);
    out.append("\n</script>");
    assert(out@ =~= old(out)@ + live_section(body_html@, version));
}

/// The page round `body_html`, which has to be safe HTML already. `title` is
/// escaped.
///
/// `live` holds the version of the document that the page shows. Such a page
/// polls for a newer one, has the pane for comments beside the document, and
/// says whether it stands in a browser or in a window. Without it the page has
/// one column and no scripts.
pub fn page_with(
    title: &str,
    body_html: &str,
    live: Option<u64>,
    allow_remote_images: bool,
    browser_mode: bool,
) -> (r: String)
    ensures
        r@ == page_text(title@, body_html@, live, allow_remote_images, browser_mode),
{
    let mut out = String::new();
    push_head(&mut out, title, allow_remote_images);
    let ghost text0 = out@;
    assert(text0 =~= head_text(title@, allow_remote_images));
    match live {
        Some(version) => {
            if browser_mode {
                out.append("<body data-mode=\"browser\">\n");
            } else {
                out.append("<body data-mode=\"native\">\n");
            }
            push_live_section(&mut out, body_html, version);
        },
        None => {
            out.append("<body>\n");
            let ghost text1 = out@;
            out.append("<main class=\"markdown-body\">\n");
            out.append(body_html);
            out.append("\n</main>");
            assert(out@ =~= text1 + static_section(body_html@));
        },
    }
    out.append("\n</body>\n</html>\n");
    out
}

/// The page round `body_html`, as it is shown in a window and without images
/// from other hosts.
pub fn page(title: &str, body_html: &str, live: Option<u64>) -> (r: String)
    ensures
        r@ == page_text(title@, body_html@, live, false, false),
{
    page_with(title, body_html, live, false, false)
}

} // verus!
