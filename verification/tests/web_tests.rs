use llm_wiki_server::config::DataDir;
use llm_wiki_server::web::{
    file_reply, file_request_path, merge_headers, proxy_method, proxy_status, static_asset_key, static_reply, StaticSource,
};

#[test]
fn asset_keys_lose_leading_slashes() {
    assert_eq!(static_asset_key("/assets/app.js"), "assets/app.js");
    assert_eq!(static_asset_key("///x"), "x");
    assert_eq!(static_asset_key("/"), "");
    assert_eq!(static_asset_key("a/b/"), "a/b/");
}

#[test]
fn static_replies() {
    let r = static_reply("assets/app.css", true, true);
    assert_eq!(r.status, 200);
    assert!(matches!(r.source, StaticSource::Asset));
    assert_eq!(r.content_type, Some("text/css".to_string()));
    let r = static_reply("projects/123", false, true);
    assert_eq!(r.status, 200);
    assert!(matches!(r.source, StaticSource::Index));
    assert_eq!(r.content_type, Some("text/html".to_string()));
    let r = static_reply("x", false, false);
    assert_eq!(r.status, 404);
    assert!(matches!(r.source, StaticSource::NotFound));
    assert_eq!(r.content_type, None);
    let r = static_reply("LICENSE", true, true);
    assert_eq!(r.content_type, Some("application/octet-stream".to_string()));
}

#[test]
fn file_requests_decode_and_resolve() {
    let d = DataDir::new("/srv/data");
    assert_eq!(file_request_path(&d, "p/raw/my%20file.pdf"), Ok("/srv/data/p/raw/my file.pdf".to_string()));
    assert_eq!(file_request_path(&d, "%2Fetc%2Fpasswd"), Ok("/etc/passwd".to_string()));
    assert_eq!(file_request_path(&d, "p/x.md"), Ok("/srv/data/p/x.md".to_string()));
    assert_eq!(file_request_path(&d, "bad%FF%FE"), Err(400));
}

#[test]
fn file_replies() {
    let d = DataDir::new("/srv/data");
    let f = file_reply(&d, "/srv/data/p/a.png", Ok("/srv/data/p/a.png".to_string()), true).ok().unwrap();
    assert_eq!(f.path, "/srv/data/p/a.png");
    assert_eq!(f.content_type, "image/png");
    assert_eq!(f.cache_control, "public, max-age=3600");
    assert_eq!(file_reply(&d, "/etc/passwd", Ok("/etc/passwd".to_string()), true).err(), Some(403));
    assert_eq!(file_reply(&d, "x", Err("missing".to_string()), true).err(), Some(403));
    assert_eq!(file_reply(&d, "/srv/data/p", Ok("/srv/data/p".to_string()), false).err(), Some(404));
}

#[test]
fn proxy_methods() {
    assert_eq!(proxy_method(None), "POST");
    assert_eq!(proxy_method(Some("GET")), "GET");
    assert_eq!(proxy_method(Some("PURGE")), "PURGE");
    assert_eq!(proxy_method(Some("get")), "get");
    assert_eq!(proxy_method(Some("")), "POST");
    assert_eq!(proxy_method(Some("BAD METHOD")), "POST");
    assert_eq!(proxy_method(Some("GÉT")), "POST");
}

#[test]
fn proxied_statuses() {
    assert_eq!(proxy_status(404), 404);
    assert_eq!(proxy_status(100), 100);
    assert_eq!(proxy_status(999), 999);
    assert_eq!(proxy_status(99), 200);
    assert_eq!(proxy_status(1000), 200);
    assert_eq!(proxy_status(0), 200);
}

#[test]
fn proxied_headers_keep_the_last_value_per_name() {
    let h = |n: &str, v: &str| (n.to_string(), v.as_bytes().to_vec());
    let merged = merge_headers(vec![
        h("content-type", "text/plain"),
        h("set-cookie", "a=1"),
        h("x-id", "7"),
        h("set-cookie", "b=2"),
        h("content-type", "application/json"),
    ]);
    assert_eq!(
        merged,
        vec![h("content-type", "application/json"), h("set-cookie", "b=2"), h("x-id", "7")]
    );
    assert!(merge_headers(Vec::new()).is_empty());
}
