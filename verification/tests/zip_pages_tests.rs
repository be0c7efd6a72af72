use stump::content::ContentType;
use stump::page_cache::{ArchiveSignature, CacheDecision, PageIndexCache, PollResult};
use stump::zip_pages::{
    build_page_index, page_content_types, page_order_is_consistent, ArchiveEntry, FileError, ZipProcessor,
};

fn entry(name: &str, is_dir: bool) -> ArchiveEntry {
    ArchiveEntry { name: name.to_string(), is_dir }
}

/// A book whose archive holds metadata and folders but no page.
fn test_zip_entries() -> Vec<ArchiveEntry> {
    vec![entry("book/", true), entry("book/ComicInfo.xml", false), entry("book/notes.txt", false)]
}

/// A comic of five pages.
fn test_cbz_entries() -> Vec<ArchiveEntry> {
    vec![
        entry("003.png", false),
        entry("001.jpg", false),
        entry("002.jpg", false),
        entry("005.webp", false),
        entry("004.jpeg", false),
        entry("ComicInfo.xml", false),
    ]
}

/// A comic compressed on macOS: the real pages sit in a folder, beside the
/// hidden resource-fork copies under `__MACOSX`.
fn nested_macos_cbz_entries() -> Vec<ArchiveEntry> {
    vec![
        entry("Nested/", true),
        entry("Nested/001.jpg", false),
        entry("__MACOSX/", true),
        entry("__MACOSX/Nested/", true),
        entry("__MACOSX/Nested/._001.jpg", false),
        entry("Nested/002.jpg", false),
        entry("__MACOSX/Nested/._002.jpg", false),
        entry("Nested/003.jpg", false),
        entry("__MACOSX/Nested/._003.jpg", false),
    ]
}

#[test]
fn test_get_page_content_types() {
    let entries = test_zip_entries();

    let content_types = ZipProcessor::get_page_content_types(&entries, vec![1]);
    assert!(content_types.is_ok());
}

#[test]
fn test_get_page_content_types_cbz() {
    let entries = test_cbz_entries();

    let content_types = ZipProcessor::get_page_content_types(&entries, vec![1, 2, 3, 4, 5]);
    assert!(content_types.is_ok());
}

#[test]
fn test_get_page_content_types_nested_cbz() {
    let entries = nested_macos_cbz_entries();

    let content_types = ZipProcessor::get_page_content_types(&entries, vec![1, 2, 3])
        .expect("Failed to get page content types");
    assert_eq!(content_types.len(), 3);
    assert!(content_types.values().all(|ct| ct.mime_type() == "image/jpeg"));
}

#[test]
fn pages_follow_natural_order_of_names() {
    let entries = vec![
        entry("page10.jpg", false),
        entry("page2.jpg", false),
        entry("page1.png", false),
        entry("cover.txt", false),
    ];
    let index = build_page_index(&entries).expect("index");
    let order: Vec<usize> = index.entries.iter().map(|e| e.archive_index).collect();
    assert_eq!(order, vec![2, 1, 0]);
    assert_eq!(index.entries[0].content_type, ContentType::PNG);
}

#[test]
fn equal_names_keep_archive_order() {
    let entries = vec![entry("a/1.jpg", false), entry("b/1.jpg", false)];
    let index = build_page_index(&entries).expect("index");
    let order: Vec<usize> = index.entries.iter().map(|e| e.archive_index).collect();
    assert_eq!(order, vec![0, 1]);
}

#[test]
fn page_index_skips_directories_hidden_files_and_non_images() {
    let index = build_page_index(&nested_macos_cbz_entries()).expect("index");
    let order: Vec<usize> = index.entries.iter().map(|e| e.archive_index).collect();
    assert_eq!(order, vec![1, 5, 7]);
}

#[test]
fn empty_archive_is_refused() {
    let entries: Vec<ArchiveEntry> = Vec::new();
    assert!(matches!(build_page_index(&entries), Err(FileError::ArchiveEmptyError)));
    assert!(matches!(ZipProcessor::get_page_count(&entries), Err(FileError::ArchiveEmptyError)));
    assert!(matches!(
        ZipProcessor::get_page_content_types(&entries, vec![1]),
        Err(FileError::ArchiveEmptyError)
    ));
}

#[test]
fn get_page_is_one_based() {
    let entries = test_cbz_entries();
    let first = ZipProcessor::get_page(&entries, 1).expect("page 1");
    assert_eq!(first.archive_index, 1);
    assert_eq!(first.content_type.mime_type(), "image/jpeg");
    let last = ZipProcessor::get_page(&entries, 5).expect("page 5");
    assert_eq!(last.archive_index, 3);
    assert_eq!(last.content_type, ContentType::WEBP);
    assert!(matches!(ZipProcessor::get_page(&entries, 0), Err(FileError::NoImageError)));
    assert!(matches!(ZipProcessor::get_page(&entries, 6), Err(FileError::NoImageError)));
    assert!(matches!(ZipProcessor::get_page(&entries, -3), Err(FileError::NoImageError)));
}

#[test]
fn page_count_and_content_types() {
    let entries = test_cbz_entries();
    assert_eq!(ZipProcessor::get_page_count(&entries).unwrap(), 5);
    let types = ZipProcessor::get_page_content_types(&entries, vec![0, 3, 5, 9, 3]).unwrap();
    assert_eq!(types.len(), 2);
    assert_eq!(types[&3], ContentType::PNG);
    assert_eq!(types[&5], ContentType::WEBP);
    let index = build_page_index(&entries).unwrap();
    assert_eq!(page_content_types(&index, vec![]).len(), 0);
}

#[test]
fn process_counts_pages_like_the_index() {
    let entries = test_cbz_entries();
    let scan = ZipProcessor::process(&entries, true);
    assert_eq!(scan.pages, 5);
    assert_eq!(scan.metadata_entry, Some(5));
    let scan = ZipProcessor::process(&entries, false);
    assert_eq!(scan.pages, 5);
    assert_eq!(scan.metadata_entry, None);
    let nested = nested_macos_cbz_entries();
    assert_eq!(ZipProcessor::process(&nested, true).pages, 3);
    assert_eq!(ZipProcessor::get_page_count(&nested).unwrap(), 3);
}

#[test]
fn process_keeps_the_last_metadata_file() {
    let entries = vec![
        entry("a/ComicInfo.xml", false),
        entry("1.jpg", false),
        entry("b/ComicInfo.xml", false),
        entry(".hidden/ComicInfo.xml", false),
        entry("c/.ComicInfo.xml", false),
    ];
    assert_eq!(ZipProcessor::process(&entries, true).metadata_entry, Some(3));
    assert_eq!(ZipProcessor::process(&entries, true).metadata_reads, vec![0, 2, 3]);
    assert!(ZipProcessor::process(&entries, false).metadata_reads.is_empty());
    assert!(ZipProcessor::process_fits(&entries, true));
    assert!(ZipProcessor::process_fits(&Vec::new(), false));
    assert_eq!(ZipProcessor::process_metadata(&entries), Some(0));
}

#[test]
fn process_metadata_finds_the_first_metadata_file() {
    assert_eq!(ZipProcessor::process_metadata(&test_zip_entries()), Some(1));
    assert_eq!(ZipProcessor::process_metadata(&nested_macos_cbz_entries()), None);
    let entries = vec![entry("ComicInfo.xml/", true), entry("x/._ComicInfo.xml", false)];
    assert_eq!(ZipProcessor::process_metadata(&entries), None);
}

#[test]
fn sample_size_sums_the_first_six_readable_entries() {
    let sizes = vec![Some(10), None, Some(5), Some(1), Some(2), Some(3), Some(1000), Some(7)];
    assert_eq!(ZipProcessor::get_sample_size(&sizes), 21);
    assert_eq!(ZipProcessor::get_sample_size(&vec![]), 0);
    assert_eq!(ZipProcessor::get_sample_size(&vec![None, Some(4)]), 4);
}

fn signature(size: u64) -> ArchiveSignature {
    ArchiveSignature { modified_at_unix_nanos: Some(1_700_000_000), size_bytes: size }
}

#[test]
fn cache_serves_the_published_index() {
    let mut cache = PageIndexCache::new();
    let index = build_page_index(&test_cbz_entries()).unwrap();
    assert!(cache.can_claim("/books/a.cbz", signature(10)));
    let ticket = match cache.claim("/books/a.cbz", signature(10)) {
        CacheDecision::Build(t) => t,
        CacheDecision::Wait(_) => panic!("first caller must build"),
    };
    assert!(matches!(cache.poll(ticket), PollResult::Building));
    assert_eq!(cache.claim("/books/a.cbz", signature(10)), CacheDecision::Wait(ticket));
    cache.publish(ticket, &index);
    match cache.poll(ticket) {
        PollResult::Ready(found) => assert_eq!(found.entries, index.entries),
        _ => panic!("index must be ready"),
    }
    cache.leave(ticket);
    assert_eq!(cache.claim("/books/a.cbz", signature(10)), CacheDecision::Wait(ticket));
}

#[test]
fn cache_rebuilds_a_changed_archive() {
    let mut cache = PageIndexCache::new();
    let index = build_page_index(&test_cbz_entries()).unwrap();
    let first = match cache.claim("/books/a.cbz", signature(10)) {
        CacheDecision::Build(t) => t,
        _ => panic!(),
    };
    cache.publish(first, &index);
    let second = cache.claim("/books/a.cbz", signature(11));
    assert_eq!(second, CacheDecision::Build(first + 1));
    // the finished build nobody waits on is dropped once replaced
    assert!(matches!(cache.poll(first), PollResult::Building));
    assert!(matches!(cache.poll(first + 1), PollResult::Building));
    assert_eq!(cache.claim("/books/b.cbz", signature(10)), CacheDecision::Build(first + 2));
}

#[test]
fn replaced_build_still_reaches_its_waiters() {
    let mut cache = PageIndexCache::new();
    let index = build_page_index(&test_cbz_entries()).unwrap();
    let first = match cache.claim("/books/a.cbz", signature(10)) {
        CacheDecision::Build(t) => t,
        _ => panic!(),
    };
    assert_eq!(cache.claim("/books/a.cbz", signature(10)), CacheDecision::Wait(first));
    assert_eq!(cache.claim("/books/a.cbz", signature(11)), CacheDecision::Build(first + 1));
    assert!(matches!(cache.poll(first), PollResult::Building));
    cache.publish(first, &index);
    match cache.poll(first) {
        PollResult::Ready(found) => assert_eq!(found.entries, index.entries),
        _ => panic!("the waiter must get the index it waited for"),
    }
    cache.leave(first);
    assert!(matches!(cache.poll(first), PollResult::Building));
    assert!(matches!(cache.poll(first + 1), PollResult::Building));
}

#[test]
fn cache_forgets_an_abandoned_build() {
    let mut cache = PageIndexCache::new();
    let ticket = match cache.claim("/books/a.cbz", signature(10)) {
        CacheDecision::Build(t) => t,
        _ => panic!(),
    };
    cache.abandon(ticket + 7);
    assert!(matches!(cache.poll(ticket), PollResult::Building));
    cache.abandon(ticket);
    assert!(matches!(cache.poll(ticket), PollResult::Building));
    assert_eq!(cache.claim("/books/a.cbz", signature(10)), CacheDecision::Build(ticket + 1));
}

#[test]
fn waiters_of_a_failed_build_find_it_still_building() {
    let mut cache = PageIndexCache::new();
    let index = build_page_index(&test_cbz_entries()).unwrap();
    let ticket = match cache.claim("/books/a.cbz", signature(10)) {
        CacheDecision::Build(t) => t,
        _ => panic!(),
    };
    assert_eq!(cache.claim("/books/a.cbz", signature(10)), CacheDecision::Wait(ticket));
    cache.abandon(ticket);
    assert!(matches!(cache.poll(ticket), PollResult::Building));
    // the next caller builds again, and its index never reaches the old build
    assert_eq!(cache.claim("/books/a.cbz", signature(10)), CacheDecision::Build(ticket + 1));
    cache.publish(ticket + 1, &index);
    assert!(matches!(cache.poll(ticket), PollResult::Building));
    match cache.poll(ticket + 1) {
        PollResult::Ready(found) => assert_eq!(found.entries, index.entries),
        _ => panic!("the new build must be ready"),
    }
}

#[test]
fn page_order_is_consistent_for_numbered_pages() {
    assert!(page_order_is_consistent(&test_cbz_entries()));
    assert!(page_order_is_consistent(&nested_macos_cbz_entries()));
    assert!(page_order_is_consistent(&complex_zip_entries()));
    assert!(page_order_is_consistent(&Vec::new()));
}

/// An archive with a deep folder tree, metadata in a nested folder, and
/// pages at several depths.
fn complex_zip_entries() -> Vec<ArchiveEntry> {
    vec![
        entry("Series/", true),
        entry("Series/Volume 1/", true),
        entry("Series/Volume 1/Chapter 2/", true),
        entry("Series/Volume 1/Chapter 2/page 10.png", false),
        entry("Series/Volume 1/Chapter 2/page 9.png", false),
        entry("Series/Volume 1/ComicInfo.xml", false),
        entry("Series/.thumbs/cover.jpg", false),
        entry("Series/._cover.jpg", false),
        entry("Series/cover.jpg", false),
    ]
}

#[test]
fn test_process() {
    let entries = test_zip_entries();

    let processed_file = ZipProcessor::process(&entries, false);
    assert_eq!(processed_file.pages, 0);
}

#[test]
fn test_process_cbz() {
    let entries = test_cbz_entries();

    let processed_file = ZipProcessor::process(&entries, false);
    assert_eq!(processed_file.pages, 5);
}

#[test]
fn test_process_nested_cbz() {
    let entries = nested_macos_cbz_entries();

    let processed_file = ZipProcessor::process(&entries, false);
    assert_eq!(processed_file.metadata_entry, None);
    assert_eq!(processed_file.pages, 3);
}

#[test]
fn test_get_page_cbz() {
    let entries = test_cbz_entries();

    let page = ZipProcessor::get_page(&entries, 1);
    assert!(page.is_ok());
}

#[test]
fn test_get_page_nested_cbz() {
    let entries = nested_macos_cbz_entries();

    let page = ZipProcessor::get_page(&entries, 1).expect("Failed to get page");
    assert_eq!(page.content_type.mime_type(), "image/jpeg");
    assert_eq!(page.archive_index, 1);
}

#[test]
fn test_zip_with_complex_file_tree() {
    let entries = complex_zip_entries();

    let processed_file = ZipProcessor::process(&entries, true);
    assert!(processed_file.metadata_entry.is_some());
    assert_eq!(processed_file.metadata_entry, Some(5));
    assert_eq!(processed_file.pages, 4);
    let index = build_page_index(&entries).expect("Failed to process ZIP file");
    let order: Vec<usize> = index.entries.iter().map(|e| e.archive_index).collect();
    assert_eq!(order, vec![6, 4, 3, 8]);
}
