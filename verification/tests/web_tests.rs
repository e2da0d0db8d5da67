use server_core::web::{get_content_type, resolve_path};

#[test]
fn test_content_types_by_extension() {
    assert_eq!("image/x-icon", get_content_type(&b"/favicon.ico".to_vec()));
    assert_eq!("application/javascript", get_content_type(&b"/app/main.js".to_vec()));
    assert_eq!("image/svg+xml", get_content_type(&b"logo.svg".to_vec()));
    assert_eq!("text/html", get_content_type(&b"./web/index.html".to_vec()));
    assert_eq!("text/css", get_content_type(&b"style.css".to_vec()));
    assert_eq!("image/png", get_content_type(&b"img/pic.png".to_vec()));
    assert_eq!("image/jpeg", get_content_type(&b"img/photo.jpg".to_vec()));
}

#[test]
fn test_content_type_fallback() {
    assert_eq!("text/plain", get_content_type(&b"README".to_vec()));
    assert_eq!("text/plain", get_content_type(&b"notes.txt".to_vec()));
    assert_eq!("text/plain", get_content_type(&b"".to_vec()));
    assert_eq!("text/plain", get_content_type(&b"html".to_vec()));
}

#[test]
fn test_resolve_path() {
    assert_eq!(
        b"./web/style.css".to_vec(),
        resolve_path(&b"./web".to_vec(), &b"/style.css".to_vec())
    );
    assert_eq!(
        b"./web/index.html".to_vec(),
        resolve_path(&b"./web".to_vec(), &b"/".to_vec())
    );
    assert_eq!(
        b"./web/docs/index.html".to_vec(),
        resolve_path(&b"./web".to_vec(), &b"/docs/".to_vec())
    );
    assert_eq!(b"/index.html".to_vec(), resolve_path(&b"".to_vec(), &b"/".to_vec()));
    assert_eq!(b"plain".to_vec(), resolve_path(&b"plain".to_vec(), &b"".to_vec()));
}
