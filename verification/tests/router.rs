use router::dispatch::{AsParams, Dispatch};
use router::params::Params;
use router::router::Router;
use router::tree::RouteError;
use router::verb::Verb;

struct State {
    params: Option<Params>,
}

impl State {
    fn new() -> Self {
        State { params: None }
    }
}

impl AsParams for State {
    fn with_params(mut self, params: Params) -> Self {
        self.params = Some(params);
        self
    }

    fn params(&self) -> Option<&Params> {
        self.params.as_ref()
    }
}

type Handler = Box<dyn Fn(&State) -> String>;

fn execute(router: &Router<Handler>, request: &http::Request<()>) -> (u16, String) {
    let verb = match Verb::from_http(request.method()) {
        Some(verb) => verb,
        None => return (404, String::new()),
    };
    match router.dispatch(&verb, request.uri().path(), State::new()) {
        Dispatch::Handle(handler, state) => (200, handler(&state)),
        Dispatch::Next(_) => (404, String::new()),
    }
}

#[test]
fn middleware() {
    let mut router: Router<Handler> = Router::new();
    router.get("/foo", Box::new(|_| "Hello World!".to_string()));

    let req = http::Request::get("http://localhost/foo").body(()).unwrap();
    let (status, body) = execute(&router, &req);
    assert_eq!(status, 200);
    assert_eq!(body, "Hello World!");
}

#[test]
fn param_case_sensitivity() {
    let mut router: Router<Handler> = Router::new();
    router.get(
        "/test/:name",
        Box::new(|state: &State| {
            let params = state.params().unwrap();
            params.get("name").unwrap().clone()
        }),
    );

    let req = http::Request::get("http://localhost/test/FooBar").body(()).unwrap();
    let (status, body) = execute(&router, &req);
    assert_eq!(status, 200);
    assert_eq!(body, "FooBar");
}

#[test]
fn unmatched_request_is_passed_on() {
    let mut router: Router<Handler> = Router::new();
    router.get("/foo", Box::new(|_| "Hello World!".to_string()));

    let req = http::Request::get("http://localhost/bar").body(()).unwrap();
    assert_eq!(execute(&router, &req), (404, String::new()));
    let req = http::Request::post("http://localhost/foo").body(()).unwrap();
    assert_eq!(execute(&router, &req), (404, String::new()));
    let req = http::Request::builder()
        .method("PURGE")
        .uri("http://localhost/foo")
        .body(())
        .unwrap();
    assert_eq!(execute(&router, &req), (404, String::new()));
}

#[test]
fn case_normalization() {
    let mut router = Router::new();
    router.get("/test/:name", 1);
    let mut params = Params::new();
    params.insert("name".to_string(), "FooBar".to_string());
    assert_eq!(router.resolve(&Verb::Get, "/Test/FooBar"), Some((&1, params)));
    assert_eq!(router.resolve(&Verb::Get, "/tested/FooBar"), None);
}

#[test]
fn routes_are_kept_by_verb() {
    let mut router = Router::new();
    router.get("/thing", 1);
    router.post("/thing", 2);
    router.put("/thing", 3);
    router.delete("/thing", 4);
    router.head("/thing", 5);
    router.patch("/thing", 6);
    router.options("/thing", 7);
    router.route(Verb::Trace, "/thing", 8);
    assert_eq!(router.resolve(&Verb::Get, "/thing"), Some((&1, Params::new())));
    assert_eq!(router.resolve(&Verb::Post, "/thing"), Some((&2, Params::new())));
    assert_eq!(router.resolve(&Verb::Put, "/thing"), Some((&3, Params::new())));
    assert_eq!(router.resolve(&Verb::Delete, "/thing"), Some((&4, Params::new())));
    assert_eq!(router.resolve(&Verb::Head, "/thing"), Some((&5, Params::new())));
    assert_eq!(router.resolve(&Verb::Patch, "/thing"), Some((&6, Params::new())));
    assert_eq!(router.resolve(&Verb::Options, "/thing"), Some((&7, Params::new())));
    assert_eq!(router.resolve(&Verb::Trace, "/thing"), Some((&8, Params::new())));
    assert_eq!(router.resolve(&Verb::Connect, "/thing"), None);
}

#[test]
fn new_router_resolves_nothing() {
    let router: Router<i32> = Router::new();
    assert_eq!(router.resolve(&Verb::Get, "/"), None);
    assert_eq!(router.resolve(&Verb::Post, "/"), None);
    assert_eq!(router.resolve(&Verb::Put, "/"), None);
    assert!(router.accepts(Verb::Get, "/x/:a"));
}

#[test]
fn router_refuses_conflicting_parameter_names() {
    let mut router = Router::new();
    router.route(Verb::Get, "/x/:a", 1);
    assert!(!router.accepts(Verb::Get, "/x/:b"));
    assert!(router.accepts(Verb::Post, "/x/:b"));
    assert_eq!(router.try_route(Verb::Get, "/x/:b", 2), Err(RouteError::ParamNameConflict));
    assert_eq!(router.try_route(Verb::Post, "/x/:b", 3), Ok(()));
    let mut a = Params::new();
    a.insert("a".to_string(), "5".to_string());
    let mut b = Params::new();
    b.insert("b".to_string(), "5".to_string());
    assert_eq!(router.resolve(&Verb::Get, "/x/5"), Some((&1, a)));
    assert_eq!(router.resolve(&Verb::Post, "/x/5"), Some((&3, b)));
}

#[test]
fn dispatch_hands_the_state_back_when_nothing_matches() {
    let mut router = Router::new();
    router.get("/user/:id", 7);
    let mut earlier = Params::new();
    earlier.insert("k".to_string(), "v".to_string());
    let state = State { params: Some(earlier) };
    match router.dispatch(&Verb::Get, "/nothing", state) {
        Dispatch::Next(state) => {
            assert_eq!(state.params().unwrap().get("k"), Some(&"v".to_string()))
        }
        Dispatch::Handle(_, _) => panic!("no route matches"),
    }
    match router.dispatch(&Verb::Get, "/user/9", State::new()) {
        Dispatch::Handle(handler, state) => {
            assert_eq!(*handler, 7);
            assert_eq!(state.params().unwrap().get("id"), Some(&"9".to_string()));
        }
        Dispatch::Next(_) => panic!("a route matches"),
    }
}
