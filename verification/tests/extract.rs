use around::common::{ApiError, Rejection, RequestBody, ResponseBody};
use around::events::EventQuery;
use around::users::User;
use axum::extract::rejection::{JsonRejection, QueryRejection};
use axum::extract::Query;
use axum::http::Uri;
use axum::Json;
use serde::de::{Deserialize, Deserializer, Error, IgnoredAny, MapAccess, Visitor};

struct Payload(User);

struct PayloadVisitor;

impl<'de> Visitor<'de> for PayloadVisitor {
    type Value = Payload;

    fn expecting(&self, formatter: &mut std::fmt::Formatter) -> std::fmt::Result {
        formatter.write_str("a user")
    }

    fn visit_map<A: MapAccess<'de>>(self, mut map: A) -> Result<Payload, A::Error> {
        let mut id: Option<i32> = None;
        let mut name: Option<String> = None;
        let mut fingerprint: Option<String> = None;
        let mut timezone_offset: Option<i32> = None;
        let mut favorite_team: Option<String> = None;
        let mut dark_mode: Option<bool> = None;
        while let Some(key) = map.next_key::<String>()? {
            match key.as_str() {
                "id" => id = Some(map.next_value()?),
                "name" => name = Some(map.next_value()?),
                "fingerprint" => fingerprint = Some(map.next_value()?),
                "timezone_offset" => timezone_offset = map.next_value()?,
                "favorite_team" => favorite_team = map.next_value()?,
                "dark_mode" => dark_mode = map.next_value()?,
                _ => {
                    map.next_value::<IgnoredAny>()?;
                }
            }
        }
        Ok(Payload(User {
            id: id.ok_or_else(|| A::Error::missing_field("id"))?,
            name: name.ok_or_else(|| A::Error::missing_field("name"))?,
            fingerprint: fingerprint.ok_or_else(|| A::Error::missing_field("fingerprint"))?,
            timezone_offset,
            favorite_team,
            dark_mode,
        }))
    }
}

impl<'de> Deserialize<'de> for Payload {
    fn deserialize<D: Deserializer<'de>>(deserializer: D) -> Result<Self, D::Error> {
        deserializer.deserialize_map(PayloadVisitor)
    }
}

struct Body(RequestBody<User>);

struct BodyVisitor;

impl<'de> Visitor<'de> for BodyVisitor {
    type Value = Body;

    fn expecting(&self, formatter: &mut std::fmt::Formatter) -> std::fmt::Result {
        formatter.write_str("a request body")
    }

    fn visit_map<A: MapAccess<'de>>(self, mut map: A) -> Result<Body, A::Error> {
        let mut data: Option<Payload> = None;
        while let Some(key) = map.next_key::<String>()? {
            if key == "data" {
                data = Some(map.next_value()?);
            } else {
                map.next_value::<IgnoredAny>()?;
            }
        }
        match data {
            Some(payload) => Ok(Body(RequestBody { data: payload.0 })),
            None => Err(A::Error::missing_field("data")),
        }
    }
}

impl<'de> Deserialize<'de> for Body {
    fn deserialize<D: Deserializer<'de>>(deserializer: D) -> Result<Self, D::Error> {
        deserializer.deserialize_map(BodyVisitor)
    }
}

fn of_json(err: JsonRejection) -> Rejection {
    Rejection::new(err.status().as_u16(), err.body_text()).unwrap()
}

fn of_query(err: QueryRejection) -> Rejection {
    Rejection::new(err.status().as_u16(), err.body_text()).unwrap()
}

fn post_user(body: &str) -> Result<User, (u16, ResponseBody<User>)> {
    let parsed = match Json::<Body>::from_bytes(body.as_bytes()) {
        Ok(value) => Ok(value.0 .0),
        Err(err) => Err(of_json(err)),
    };
    User::from_request(parsed)
}

fn one_descriptor(response: (u16, ResponseBody<User>)) -> ApiError {
    assert!((400..500).contains(&response.0));
    match response.1 {
        ResponseBody::ResponseErr { mut errors } => {
            assert_eq!(errors.len(), 1);
            errors.remove(0)
        }
        ResponseBody::ResponseOk { .. } => panic!("a rejected body is no success"),
    }
}

#[test]
fn complete_user_body_is_extracted() {
    let body = r#"{"data":{"id":5,"name":"Ada","fingerprint":"abc","timezone_offset":1,"favorite_team":null}}"#;
    assert_eq!(
        post_user(body),
        Ok(User {
            id: 5,
            name: "Ada".to_string(),
            fingerprint: "abc".to_string(),
            timezone_offset: Some(1),
            favorite_team: None,
            dark_mode: None,
        })
    );
}

#[test]
fn posted_user_without_name_gets_one_descriptor_and_a_4xx() {
    let body = r#"{"data":{"id":5,"fingerprint":"abc"}}"#;
    let response = post_user(body).unwrap_err();
    assert_eq!(response.0, 400);
    let error = one_descriptor(response);
    assert_eq!(error.status, "422");
    assert_eq!(
        error.detail,
        "Failed to deserialize the JSON body into the target type: data: missing field `name` at line 1 column 36"
    );
}

#[test]
fn posted_user_with_a_wrong_type_gets_the_data_error_status() {
    let body = r#"{"data":{"id":"five","name":"Ada","fingerprint":"abc"}}"#;
    let error = one_descriptor(post_user(body).unwrap_err());
    assert_eq!(error.status, "422");
    assert!(error.detail.contains("invalid type: string \"five\", expected i32"));
}

#[test]
fn posted_body_that_is_no_json_gets_the_syntax_error_status() {
    let error = one_descriptor(post_user(r#"{"data":"#).unwrap_err());
    assert_eq!(error.status, "400");
    assert!(error.detail.starts_with("Failed to parse the request body as JSON"));
}

#[test]
fn query_string_that_does_not_parse_is_rejected_with_its_message() {
    let uri: Uri = "/v0/events/?limit=300".parse().unwrap();
    let parsed = match Query::<Vec<(String, u8)>>::try_from_uri(&uri) {
        Ok(_) => Ok(EventQuery { limit: None, offset: None, start: None }),
        Err(err) => Err(of_query(err)),
    };
    let (status, body) = EventQuery::from_request_parts(parsed).unwrap_err();
    assert_eq!(status, 400);
    match body {
        ResponseBody::ResponseErr { errors } => {
            assert_eq!(errors.len(), 1);
            assert_eq!(errors[0].status, "400");
            assert!(errors[0].detail.starts_with("Failed to deserialize query string"));
        }
        ResponseBody::ResponseOk { .. } => panic!("a rejected query is no success"),
    }
}

#[test]
fn query_string_that_parses_is_handed_on() {
    let uri: Uri = "/v0/events/?limit=30&offset=7".parse().unwrap();
    let pairs = Query::<Vec<(String, u16)>>::try_from_uri(&uri).unwrap().0;
    let mut query = EventQuery { limit: None, offset: None, start: None };
    for (name, value) in pairs {
        if name == "limit" {
            query.limit = Some(value as u8);
        } else if name == "offset" {
            query.offset = Some(value);
        }
    }
    assert_eq!(
        EventQuery::from_request_parts(Ok(query)),
        Ok(EventQuery { limit: Some(30), offset: Some(7), start: None })
    );
}
