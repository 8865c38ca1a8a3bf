use router::verb::Verb;

const ALL: [Verb; 9] = [
    Verb::Options,
    Verb::Get,
    Verb::Post,
    Verb::Put,
    Verb::Delete,
    Verb::Head,
    Verb::Trace,
    Verb::Connect,
    Verb::Patch,
];

#[test]
fn verb_names_round_trip() {
    for verb in ALL.iter() {
        assert_eq!(Verb::from_name(verb.as_str()), Some(*verb));
    }
    assert_eq!(Verb::Get.as_str(), "GET");
    assert_eq!(Verb::Delete.as_str(), "DELETE");
}

#[test]
fn verb_names_are_case_sensitive() {
    assert_eq!(Verb::from_name("get"), None);
    assert_eq!(Verb::from_name("Get"), None);
    assert_eq!(Verb::from_name(""), None);
    assert_eq!(Verb::from_name("PURGE"), None);
}

#[test]
fn verb_of_an_http_method() {
    assert_eq!(Verb::from_http(&http::Method::GET), Some(Verb::Get));
    assert_eq!(Verb::from_http(&http::Method::POST), Some(Verb::Post));
    assert_eq!(Verb::from_http(&http::Method::PUT), Some(Verb::Put));
    assert_eq!(Verb::from_http(&http::Method::DELETE), Some(Verb::Delete));
    assert_eq!(Verb::from_http(&http::Method::HEAD), Some(Verb::Head));
    assert_eq!(Verb::from_http(&http::Method::OPTIONS), Some(Verb::Options));
    assert_eq!(Verb::from_http(&http::Method::PATCH), Some(Verb::Patch));
    assert_eq!(Verb::from_http(&http::Method::TRACE), Some(Verb::Trace));
    assert_eq!(Verb::from_http(&http::Method::CONNECT), Some(Verb::Connect));
    let purge = http::Method::from_bytes(b"PURGE").unwrap();
    assert_eq!(Verb::from_http(&purge), None);
}
