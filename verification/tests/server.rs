use static_filez::archive::{build, SourceFile};
use static_filez::compress::compress;
use static_filez::server::{serve, Response};
use static_filez::site::Site;

fn file(key: &str, content: &str) -> SourceFile {
    SourceFile { key: key.as_bytes().to_vec(), content: content.as_bytes().to_vec() }
}

fn tree() -> Vec<SourceFile> {
    vec![
        file("a.txt", "hello"),
        file("style.css", "body {}"),
        file("docs/index.html", "<h1>docs</h1>"),
        file("LICENSE", "free"),
        file("data.zzunknown", "?"),
    ]
}

#[test]
fn a_page_is_answered_with_200_and_its_payload() {
    let archive = build(&tree()).unwrap();
    let site = Site::new(archive.index().to_vec(), archive.blob()).unwrap();
    let response = serve(&site, "/a.txt");
    assert_eq!(response.status, 200);
    assert_eq!(response.content_encoding, Some("gzip"));
    assert_eq!(response.content_disposition, Some("inline"));
    assert_eq!(response.content_type, Some("text/plain".to_string()));
    assert_eq!(response.body, &compress(b"hello").unwrap()[..]);
}

#[test]
fn the_media_type_follows_the_extension() {
    let archive = build(&tree()).unwrap();
    let site = Site::new(archive.index().to_vec(), archive.blob()).unwrap();
    assert_eq!(serve(&site, "/style.css").content_type, Some("text/css".to_string()));
    assert_eq!(serve(&site, "/docs/index.html").content_type, Some("text/html".to_string()));
}

#[test]
fn without_a_guess_the_media_type_is_html() {
    let archive = build(&tree()).unwrap();
    let site = Site::new(archive.index().to_vec(), archive.blob()).unwrap();
    let license = serve(&site, "/LICENSE");
    assert_eq!(license.status, 200);
    assert_eq!(license.content_type, Some("text/html".to_string()));
    let unknown = serve(&site, "/data.zzunknown");
    assert_eq!(unknown.status, 200);
    assert_eq!(unknown.content_type, Some("text/html".to_string()));
}

#[test]
fn a_directory_is_answered_with_its_index_document() {
    let archive = build(&tree()).unwrap();
    let site = Site::new(archive.index().to_vec(), archive.blob()).unwrap();
    let response = serve(&site, "/docs");
    assert_eq!(response.status, 200);
    assert_eq!(response.content_type, Some("text/html".to_string()));
    assert_eq!(response.body, &compress(b"<h1>docs</h1>").unwrap()[..]);
    assert_eq!(response.body, serve(&site, "/docs/index.html").body);
}

#[test]
fn a_miss_is_answered_with_404() {
    let archive = build(&tree()).unwrap();
    let site = Site::new(archive.index().to_vec(), archive.blob()).unwrap();
    let response = serve(&site, "/nonexistent");
    assert_eq!(response.status, 404);
    assert_eq!(response.content_encoding, None);
    assert_eq!(response.content_disposition, None);
    assert_eq!(response.content_type, None);
    assert_eq!(response.body, b"Not found");
}

#[test]
fn the_first_character_of_the_uri_path_is_dropped() {
    let archive = build(&tree()).unwrap();
    let site = Site::new(archive.index().to_vec(), archive.blob()).unwrap();
    assert_eq!(serve(&site, "a.txt").status, 404);
    assert_eq!(serve(&site, "//a.txt").status, 404);
    assert_eq!(serve(&site, "xa.txt").status, 200);
    assert_eq!(serve(&site, "/").status, 404);
    assert_eq!(serve(&site, "").status, 404);
    assert_eq!(serve(&site, "*").status, 404);
}

#[test]
fn the_root_falls_back_to_a_key_with_a_leading_slash() {
    let plain = build(&vec![file("index.html", "<h1>top</h1>")]).unwrap();
    let site = Site::new(plain.index().to_vec(), plain.blob()).unwrap();
    assert_eq!(serve(&site, "/").status, 404);
    assert_eq!(serve(&site, "/index.html").status, 200);

    let slashed = build(&vec![file("/index.html", "<h1>top</h1>")]).unwrap();
    let site = Site::new(slashed.index().to_vec(), slashed.blob()).unwrap();
    let response = serve(&site, "/");
    assert_eq!(response.status, 200);
    assert_eq!(response.body, &compress(b"<h1>top</h1>").unwrap()[..]);
}

#[test]
fn answers_are_made_from_their_parts() {
    let body = [1u8, 2, 3];
    let guessed = Response::page(&body, Some("image/png".to_string()));
    assert_eq!(guessed.status, 200);
    assert_eq!(guessed.content_type, Some("image/png".to_string()));
    assert_eq!(guessed.content_encoding, Some("gzip"));
    assert_eq!(guessed.content_disposition, Some("inline"));
    assert_eq!(guessed.body, &body[..]);
    let plain = Response::page(&body, None);
    assert_eq!(plain.content_type, Some("text/html".to_string()));
    let missing = Response::not_found();
    assert_eq!(missing.status, 404);
    assert_eq!(missing.body, b"Not found");
}
