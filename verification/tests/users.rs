use around::common::{ApiError, Links, ResponseBody};
use around::table::Table;
use around::users::{create_user, delete_user, select_user, update_user, User, UserId};

fn user(id: i32, name: &str) -> User {
    User {
        id,
        name: name.to_string(),
        fingerprint: format!("fp-{}", id),
        timezone_offset: Some(2),
        favorite_team: None,
        dark_mode: Some(false),
    }
}

fn ok<T>(data: T) -> ResponseBody<T> {
    ResponseBody::ResponseOk { data, links: Links { this: "links".to_string(), next: None } }
}

fn not_found<T>() -> ResponseBody<T> {
    ResponseBody::ResponseErr {
        errors: vec![ApiError { status: "400".to_string(), detail: "Record not found".to_string() }],
    }
}

#[test]
fn created_user_is_returned_and_stored() {
    let mut store = Table::new();
    let (status, body) = create_user(&mut store, user(3, "Cy"));
    assert_eq!(status, 202);
    assert_eq!(body, ok(Some(user(3, "Cy"))));
    assert_eq!(store.rows(), vec![user(3, "Cy")]);
}

#[test]
fn creating_the_same_user_twice_adds_nothing_and_is_no_error() {
    let mut store = Table::new();
    create_user(&mut store, user(3, "Cy"));
    let (status, body) = create_user(&mut store, user(3, "Cy"));
    assert_eq!(status, 202);
    assert_eq!(body, ok(None));
    assert_eq!(store.rows(), vec![user(3, "Cy")]);
    assert_eq!(store.len(), 1);
}

#[test]
fn create_under_a_taken_id_keeps_the_stored_user() {
    let mut store = Table::new();
    create_user(&mut store, user(3, "Cy"));
    let (status, body) = create_user(&mut store, user(3, "Dee"));
    assert_eq!(status, 202);
    assert_eq!(body, ok(None));
    assert_eq!(select_user(UserId(3), &store), (200, ok(user(3, "Cy"))));
}

#[test]
fn created_user_reads_back_equal_in_all_fields() {
    let mut store = Table::new();
    let full = User {
        id: i32::MAX,
        name: "Grace".to_string(),
        fingerprint: "0123456789abcdef0123456789abcdef".to_string(),
        timezone_offset: Some(-12),
        favorite_team: Some("Rovers".to_string()),
        dark_mode: None,
    };
    create_user(&mut store, user(1, "Al"));
    create_user(&mut store, full.clone());
    create_user(&mut store, user(i32::MIN, "Bo"));
    let (status, body) = select_user(UserId(i32::MAX), &store);
    assert_eq!(status, 200);
    assert_eq!(body, ok(full));
    assert_eq!(select_user(UserId(i32::MIN), &store), (200, ok(user(i32::MIN, "Bo"))));
}

#[test]
fn users_are_kept_in_id_order() {
    let mut store = Table::new();
    for id in [5, -2, 9, 0, 7, -2, 5] {
        create_user(&mut store, user(id, "x"));
    }
    let ids: Vec<i32> = store.rows().iter().map(|u| u.id).collect();
    assert_eq!(ids, vec![-2, 0, 5, 7, 9]);
}

#[test]
fn reading_an_absent_user_is_not_found() {
    let mut store = Table::new();
    create_user(&mut store, user(1, "Al"));
    let (status, body) = select_user(UserId(2), &store);
    assert_eq!(status, 400);
    assert_eq!(body, not_found());
}

#[test]
fn update_replaces_every_field_but_the_id() {
    let mut store = Table::new();
    create_user(&mut store, user(1, "Al"));
    create_user(&mut store, user(2, "Bea"));
    let changed = User {
        id: 2,
        name: "Beatrice".to_string(),
        fingerprint: "new".to_string(),
        timezone_offset: None,
        favorite_team: Some("United".to_string()),
        dark_mode: Some(true),
    };
    let (status, body) = update_user(&mut store, changed.clone());
    assert_eq!(status, 202);
    assert_eq!(body, ok(changed.clone()));
    assert_eq!(store.rows(), vec![user(1, "Al"), changed]);
}

#[test]
fn update_of_an_absent_user_fails_and_changes_no_row() {
    let mut store = Table::new();
    create_user(&mut store, user(1, "Al"));
    let (status, body) = update_user(&mut store, user(2, "Bea"));
    assert_eq!(status, 400);
    assert_eq!(body, not_found());
    assert_eq!(store.rows(), vec![user(1, "Al")]);
}

#[test]
fn deleted_user_is_returned_and_gone() {
    let mut store = Table::new();
    create_user(&mut store, user(1, "Al"));
    create_user(&mut store, user(2, "Bea"));
    let (status, body) = delete_user(UserId(1), &mut store);
    assert_eq!(status, 202);
    assert_eq!(body, ok(user(1, "Al")));
    assert_eq!(store.rows(), vec![user(2, "Bea")]);
    assert_eq!(select_user(UserId(1), &store), (400, not_found()));
}

#[test]
fn deleting_user_999999_that_is_absent_is_not_found() {
    let mut store = Table::new();
    create_user(&mut store, user(1, "Al"));
    let (status, body) = delete_user(UserId(999999), &mut store);
    assert_eq!(status, 400);
    assert_eq!(body, not_found());
    assert_eq!(store.rows(), vec![user(1, "Al")]);
}

#[test]
fn deleting_from_an_empty_table_is_not_found() {
    let mut store: Table<User> = Table::new();
    assert_eq!(delete_user(UserId(0), &mut store), (400, not_found()));
    assert_eq!(store.len(), 0);
}
