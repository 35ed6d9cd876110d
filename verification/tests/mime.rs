use kvdb::mime::mime_for;

#[test]
fn content_type_by_extension() {
    assert_eq!(mime_for("index.html"), "text/html; charset=utf-8");
    assert_eq!(mime_for("assets/app.3f2a.js"), "text/javascript; charset=utf-8");
    assert_eq!(mime_for("worker.mjs"), "text/javascript; charset=utf-8");
    assert_eq!(mime_for("assets/index.css"), "text/css; charset=utf-8");
    assert_eq!(mime_for("data.json"), "application/json");
    assert_eq!(mime_for("logo.svg"), "image/svg+xml");
    assert_eq!(mime_for("a.png"), "image/png");
    assert_eq!(mime_for("a.jpg"), "image/jpeg");
    assert_eq!(mime_for("a.jpeg"), "image/jpeg");
    assert_eq!(mime_for("favicon.ico"), "image/x-icon");
    assert_eq!(mime_for("font.woff2"), "font/woff2");
    assert_eq!(mime_for("font.woff"), "font/woff");
}

#[test]
fn unknown_or_missing_extension_is_octet_stream() {
    assert_eq!(mime_for("README"), "application/octet-stream");
    assert_eq!(mime_for("archive.tar.gz"), "application/octet-stream");
    assert_eq!(mime_for("html"), "text/html; charset=utf-8");
    assert_eq!(mime_for("dir.html/file"), "application/octet-stream");
    assert_eq!(mime_for(""), "application/octet-stream");
    assert_eq!(mime_for("trailing."), "application/octet-stream");
}
