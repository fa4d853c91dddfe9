use icp_cdn_backend::http::path_of_request;
use icp_cdn_backend::mime::content_type;
use icp_cdn_backend::registry::{greet, FileRegistry};
use icp_cdn_backend::store::AssetStore;
use icp_cdn_backend::key::StoreError;

#[test]
fn content_types_by_extension() {
    assert_eq!(content_type("img.png"), "image/png");
    assert_eq!(content_type("IMG.PNG"), "image/png");
    assert_eq!(content_type("a/b/index.HtMl"), "text/html");
    assert_eq!(content_type("x.tar.js"), "application/javascript");
    assert_eq!(content_type("photo.jpeg"), "image/jpeg");
    assert_eq!(content_type("README"), "application/octet-stream");
    assert_eq!(content_type("file."), "application/octet-stream");
    assert_eq!(content_type("archive.xyz"), "application/octet-stream");
}

#[test]
fn request_paths() {
    assert_eq!(path_of_request("/img.png"), "img.png");
    assert_eq!(path_of_request("/img.png?v=2"), "img.png");
    assert_eq!(path_of_request("img.png"), "img.png");
    assert_eq!(path_of_request("/"), "");
}

#[test]
fn http_serves_asset_and_404() {
    let mut s = AssetStore::new();
    s.upload_asset("anon", "site.css", b"body{}".to_vec()).unwrap();
    let ok = s.http_request("anon", "/site.css?x=1");
    assert_eq!(ok.status_code, 200);
    assert_eq!(ok.body, b"body{}".to_vec());
    assert_eq!(ok.headers[0], ("Content-Type".to_string(), "text/css".to_string()));
    assert_eq!(ok.headers[1], ("Access-Control-Allow-Origin".to_string(), "*".to_string()));
    let missing = s.http_request("anon", "/nope.css");
    assert_eq!(missing.status_code, 404);
    assert_eq!(missing.body, b"not found".to_vec());
}

#[test]
fn registry_add_list_delete() {
    let mut r = FileRegistry::new();
    assert_eq!(
        r.add_ipfs_file("alice", "a.txt".to_string(), "cid1".to_string(), 10, "text/plain".to_string(), 5),
        Ok(())
    );
    r.add_ipfs_file("alice", "b.txt".to_string(), "cid2".to_string(), 20, "text/plain".to_string(), 6)
        .unwrap();
    r.add_ipfs_file("alice", "c.txt".to_string(), "cid1".to_string(), 30, "text/plain".to_string(), 7)
        .unwrap();
    let files = r.list_ipfs_files("alice");
    assert_eq!(files.len(), 3);
    assert_eq!(files[0].name, "a.txt");
    assert_eq!(files[1].cid, "cid2");
    assert_eq!(files[2].size, 30);
    assert_eq!(r.list_ipfs_files("bob").len(), 0);
    assert_eq!(r.delete_ipfs_file("alice", "cid1".to_string()), Ok(()));
    let files = r.list_ipfs_files("alice");
    assert_eq!(files.len(), 1);
    assert_eq!(files[0].name, "b.txt");
    assert_eq!(files[0].uploaded_at, 6);
    assert_eq!(r.delete_ipfs_file("alice", "cid1".to_string()), Err(StoreError::NotFound));
    assert_eq!(r.delete_ipfs_file("bob", "cid2".to_string()), Err(StoreError::NotFound));
    assert_eq!(r.delete_ipfs_file("alice", String::new()), Err(StoreError::InvalidInput));
}

#[test]
fn registry_refuses_empty_fields() {
    let mut r = FileRegistry::new();
    assert_eq!(
        r.add_ipfs_file("alice", String::new(), "cid".to_string(), 1, String::new(), 0),
        Err(StoreError::InvalidInput)
    );
    assert_eq!(
        r.add_ipfs_file("alice", "n".to_string(), String::new(), 1, String::new(), 0),
        Err(StoreError::InvalidInput)
    );
    assert_eq!(r.list_ipfs_files("alice").len(), 0);
}

#[test]
fn greeting() {
    assert_eq!(greet("world"), "Hello, world!");
}
