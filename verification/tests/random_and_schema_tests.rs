use stump::random_order::{
    check_random_pagination, is_random_ordering, plan_randomized_media_ids, random_ids_count,
    randomized_media_ids_query, sort_media_by_ids, ApiError, Pagination, RandomIdsStep,
};
use stump::schema::provider_schemas;

#[test]
fn random_ordering_is_recognised_without_case() {
    assert!(is_random_ordering("random"));
    assert!(is_random_ordering("RaNdOm"));
    assert!(!is_random_ordering("name"));
    assert!(!is_random_ordering("random "));
}

#[test]
fn cursor_pagination_is_refused() {
    match check_random_pagination(&Pagination::Cursor) {
        Err(ApiError::BadRequest(msg)) => {
            assert_eq!(msg, "Random ordering does not support cursor pagination")
        },
        Ok(()) => panic!("cursor must be refused"),
    }
    assert!(check_random_pagination(&Pagination::Unpaged).is_ok());
    assert!(check_random_pagination(&Pagination::Page { skip: 0, take: 20 }).is_ok());
}

#[test]
fn counts_are_reported_for_paged_listings() {
    assert_eq!(random_ids_count(&Pagination::Unpaged, 7), None);
    assert_eq!(random_ids_count(&Pagination::Page { skip: 0, take: 5 }, 7), Some(7));
}

#[test]
fn random_query_text() {
    let ids = vec!["a".to_string(), "b'".to_string()];
    let q = randomized_media_ids_query(&ids, &Pagination::Page { skip: 40, take: 20 });
    assert_eq!(
        q.sql,
        "\n\t\t\t\t\tSELECT id FROM media\n\t\t\t\t\tWHERE id IN ('a','b''')\n\t\t\t\t\tORDER BY RANDOM()\n\t\t\t\t\tLIMIT {} OFFSET {}\n\t\t\t\t\t"
    );
    assert_eq!(q.params, vec![20, 40]);
    let q = randomized_media_ids_query(&ids, &Pagination::Unpaged);
    assert_eq!(
        q.sql,
        "\n\t\t\t\tSELECT id FROM media\n\t\t\t\tWHERE id IN ('a','b''')\n\t\t\t\tORDER BY RANDOM()\n\t\t\t\t"
    );
    assert!(q.params.is_empty());
}

#[test]
fn planning_with_and_without_candidates() {
    match plan_randomized_media_ids(&Pagination::Page { skip: 0, take: 2 }, &vec![]) {
        RandomIdsStep::Finished { ids, count } => {
            assert!(ids.is_empty());
            assert_eq!(count, Some(0));
        },
        _ => panic!("no candidates means no query"),
    }
    match plan_randomized_media_ids(&Pagination::Unpaged, &vec![]) {
        RandomIdsStep::Finished { count, .. } => assert_eq!(count, None),
        _ => panic!(),
    }
    let ids = vec!["x".to_string(), "y".to_string(), "z".to_string()];
    match plan_randomized_media_ids(&Pagination::Page { skip: 1, take: 2 }, &ids) {
        RandomIdsStep::RunQuery { query, count } => {
            assert_eq!(count, Some(3));
            assert_eq!(query.params, vec![2, 1]);
            assert!(query.sql.contains("('x','y','z')"));
        },
        _ => panic!(),
    }
}

#[test]
fn media_follow_the_drawn_ids() {
    let media = vec!["m-a", "m-b", "m-c", "m-b2"];
    let media_ids = vec!["a".to_string(), "b".to_string(), "c".to_string(), "b".to_string()];
    let ids = vec!["c".to_string(), "x".to_string(), "b".to_string(), "a".to_string(), "c".to_string()];
    let sorted = sort_media_by_ids(media, &media_ids, &ids);
    assert_eq!(sorted, vec!["m-c", "m-b2", "m-a"]);
}

#[test]
fn provider_schemas_swap_provider_and_url() {
    let shared = "datasource db {\n  provider = \"sqlite\"\n  url      = \"file:dev.db\"\n}\n";
    let (sqlite, postgres) = provider_schemas(shared);
    assert_eq!(sqlite, shared);
    assert_eq!(
        postgres,
        "datasource db {\n  provider = \"postgresql\"\n  url      = env(\"DATABASE_URL\")\n}\n"
    );
}
