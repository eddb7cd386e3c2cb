//! The stylesheet and the scripts that a page embeds.
use vstd::prelude::*;

verus! {

/// The stylesheet of every page.
pub const STYLE_CSS: &'static str = "
:root { color-scheme: light dark; }
body { margin: 0; font-family: -apple-system, 'Segoe UI', Helvetica, Arial, sans-serif; line-height: 1.5; }
.markdown-body { max-width: 56rem; margin: 0 auto; padding: 2rem; }
.markdown-body pre { padding: 1rem; overflow: auto; background: rgba(127, 127, 127, 0.12); }
.markdown-body code { font-family: ui-monospace, Menlo, Consolas, monospace; }
.markdown-body table { border-collapse: collapse; }
.markdown-body th, .markdown-body td { padding: 0.3rem 0.8rem; border: 1px solid rgba(127, 127, 127, 0.4); }
.markdown-body blockquote { margin-left: 0; padding-left: 1rem; border-left: 0.25rem solid rgba(127, 127, 127, 0.4); }
.markdown-body img { max-width: 100%; }
.layout { display: flex; height: 100vh; }
.layout .doc { flex: 1; overflow: auto; margin: 0; }
.splitter { width: 4px; cursor: col-resize; background: rgba(127, 127, 127, 0.3); }
.review { width: 22rem; overflow: auto; padding: 1rem; }
.selected { outline: 2px solid rgba(80, 140, 255, 0.8); }
.mdview-empty, .mdview-error { padding: 2rem; text-align: center; }
";

/// Zooming, and the hooks that the window calls into.
pub const VIEWER_JS: &'static str = "
(function () {
  var zoom = 1;
  function apply() { document.body.style.fontSize = zoom * 100 + '%'; }
  window.__mdviewViewer = {
    zoom: function (dir) {
      zoom = dir === 'reset' ? 1 : Math.min(3, Math.max(0.5, zoom + (dir === 'in' ? 0.1 : -0.1)));
      apply();
    }
  };
  window.addEventListener('keydown', function (event) {
    if (!(event.metaKey || event.ctrlKey)) { return; }
    var dir = { '+': 'in', '=': 'in', '-': 'out', '0': 'reset' }[event.key];
    if (dir) { event.preventDefault(); window.__mdviewViewer.zoom(dir); }
  });
})();
";

/// Polling the version of the document and swapping in its new body.
pub const LIVE_JS: &'static str = "
(function () {
  var version = window.__mdviewVersion;
  function fetchText(url) {
    var controller = new AbortController();
    var timer = setTimeout(function () { controller.abort(); }, 5000);
    return fetch(url, { signal: controller.signal, cache: 'no-store' }).then(function (response) {
      clearTimeout(timer);
      if (!response.ok) { throw new Error('status ' + response.status); }
      var title = response.headers.get('X-Mdview-Title');
      if (title) { document.title = decodeURIComponent(title); }
      return response.text();
    });
  }
  function poll() {
    fetchText('/version').then(function (latest) {
      if (latest === version) { return; }
      return fetchText('/body').then(function (html) {
        document.querySelector('.markdown-body').innerHTML = html;
        version = latest;
        if (window.__mdviewReview) { window.__mdviewReview.refresh(); }
      });
    }).catch(function () {}).then(function () { setTimeout(poll, 500); });
  }
  poll();
})();
";

/// The pane in which comments are read and written.
pub const REVIEW_JS: &'static str = "
(function () {
  var aside = document.getElementById('review');
  var doc = null;
  var selected = null;
  function send(method, path, body) {
    return fetch(path, { method: method, body: body, headers: { 'X-Mdview-Request': '1' } });
  }
  function newId() {
    var id = 'c_';
    while (id.length < 18) { id += Math.floor(Math.random() * 16).toString(16); }
    return id;
  }
  function blockFor(element) {
    var hash = element.dataset.hash;
    var found = doc.blocks.filter(function (b) { return b.hash === hash; })[0];
    if (!found) {
      found = { hash: hash, excerpt: element.dataset.excerpt, kind: element.dataset.kind, comments: [] };
      doc.blocks.push(found);
    }
    return found;
  }
  function add(text) {
    var block = blockFor(selected);
    var now = new Date().toISOString();
    block.comments.push({ id: newId(), text: text, created: now, updated: now });
    send('PUT', '/review', JSON.stringify(doc)).then(refresh);
  }
  function draw() {
    aside.textContent = '';
    if (!doc || !selected) { return; }
    var found = doc.blocks.filter(function (b) { return b.hash === selected.dataset.hash; })[0];
    (found ? found.comments : []).forEach(function (comment) {
      var line = document.createElement('p');
      line.textContent = comment.text;
      aside.appendChild(line);
    });
    var input = document.createElement('textarea');
    input.addEventListener('keydown', function (event) {
      if (event.key === 'Enter' && (event.metaKey || event.ctrlKey) && input.value) { add(input.value); }
    });
    aside.appendChild(input);
  }
  function refresh() {
    return send('GET', '/review').then(function (response) {
      return response.ok ? response.json() : null;
    }).then(function (value) { doc = value; draw(); });
  }
  document.addEventListener('click', function (event) {
    var hit = event.target.closest('.anchor, .blk');
    if (!hit) { return; }
    if (selected) { selected.classList.remove('selected'); }
    selected = hit;
    hit.classList.add('selected');
    draw();
  });
  window.__mdviewReview = {
    refresh: refresh,
    exportReview: function () { return send('POST', '/export'); }
  };
  refresh();
})();
";

} // verus!
