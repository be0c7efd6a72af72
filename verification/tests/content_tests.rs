use stump::content::{file_name, is_hidden_file, naive_content_type, ContentType};

#[test]
fn file_name_is_the_last_component() {
    let n: String = file_name("a/b/c.jpg").into_iter().collect();
    assert_eq!(n, "c.jpg");
    let n: String = file_name("plain").into_iter().collect();
    assert_eq!(n, "plain");
}

#[test]
fn hidden_files_start_with_a_dot() {
    assert!(is_hidden_file("__MACOSX/._001.jpg"));
    assert!(is_hidden_file(".DS_Store"));
    assert!(!is_hidden_file(".git/page.jpg"));
    assert!(!is_hidden_file("page.jpg"));
}

#[test]
fn content_type_comes_from_the_extension() {
    assert_eq!(naive_content_type("x/001.JPG"), ContentType::JPEG);
    assert_eq!(naive_content_type("x/001.jpeg"), ContentType::JPEG);
    assert_eq!(naive_content_type("a.b.PnG"), ContentType::PNG);
    assert_eq!(naive_content_type("ComicInfo.xml"), ContentType::XML);
    assert_eq!(naive_content_type("gif"), ContentType::UNKNOWN);
    assert_eq!(naive_content_type("dir.png/file"), ContentType::UNKNOWN);
    assert_eq!(naive_content_type("file."), ContentType::UNKNOWN);
    assert_eq!(ContentType::from_extension("WebP"), ContentType::WEBP);
    assert!(ContentType::AVIF.is_image());
    assert!(!ContentType::XML.is_image());
    assert_eq!(ContentType::GIF.mime_type(), "image/gif");
}
