use std::cell::Cell;
use std::rc::Rc;

use http::{HeaderMap, Method};
use router::{
    Action, Known, Mount, Predicate, Request, Resource, ResourceDef, ResourceId,
    Router, Scope, UrlError, UrlGenerationError,
};

fn request(path: &str) -> Request {
    Request::new(
        Method::GET,
        path,
        HeaderMap::new(),
        "http",
        "localhost:8080",
    )
}

fn over(path: &str, scheme: &str, host: &str) -> Request {
    Request::new(Method::GET, path, HeaderMap::new(), scheme, host)
}

fn resource(pattern: &str) -> Resource<u32> {
    Resource::new(ResourceDef::new(pattern))
}

fn named(pattern: &str, name: &str) -> Resource<u32> {
    let mut resource = resource(pattern);
    resource.name(name);
    resource
}

/// Accepts the requests over a scheme.
struct Over(&'static str);

impl<S> Predicate<S> for Over {
    fn check(&self, req: &Request, _: &S) -> bool {
        req.scheme() == self.0
    }
}

/// Accepts the requests with a method and a header.
struct Asks(Method, &'static str);

impl<S> Predicate<S> for Asks {
    fn check(&self, req: &Request, _: &S) -> bool {
        *req.method() == self.0 && req.headers().contains_key(self.1)
    }
}

/// Counts how often it is asked, and accepts if the state says so.
struct Counted(Rc<Cell<u32>>);

impl Predicate<bool> for Counted {
    fn check(&self, _: &Request, state: &bool) -> bool {
        self.0.set(self.0.get() + 1);
        *state
    }
}

fn id<S>(router: &Router<S, u32>, path: &str, state: &S) -> ResourceId {
    router.recognize(&request(path), state, 0).resource()
}

#[test]
fn the_first_registration_wins() {
    let mut router = Router::<(), u32>::new();
    router.register_resource(resource("/{a}"));
    assert_eq!(id(&router, "/x", &()), ResourceId::Normal(0));
    router.register_resource(resource("/x"));
    assert_eq!(id(&router, "/x", &()), ResourceId::Normal(0));
    assert_eq!(id(&router, "/x/y", &()), ResourceId::Default);
    router.register_resource(resource("/{a}/{b}"));
    assert_eq!(id(&router, "/x/y", &()), ResourceId::Normal(2));
}

#[test]
fn nothing_is_recognized_by_an_empty_router() {
    let router: Router<(), u32> = Default::default();
    let info = router.recognize(&request("/x"), &(), 1);
    assert_eq!(info.resource(), ResourceId::Default);
    assert_eq!(info.prefix(), 1);
    assert!(info.match_info().is_empty());
    assert_eq!(info.name(), "");
    assert!(info.rdef().is_none());
    assert!(!info.has_route("/x"));
    assert!(!router.has_default_resource());
}

#[test]
fn an_offset_beyond_the_path_is_not_recognized() {
    let mut router = Router::<(), u32>::new();
    router.register_resource(resource("/{a:.*}"));
    let info = router.recognize(&request("/x"), &(), 65539);
    assert_eq!(info.resource(), ResourceId::Default);
    assert_eq!(info.prefix(), 3);
}

#[test]
fn filters_decide_on_handlers() {
    let mut router = Router::<(), u32>::new();
    let filters: Vec<Box<dyn Predicate<()>>> = vec![Box::new(Over("https"))];
    router.register_handler("/app", Mount::new(1), Some(filters));
    router.register_handler("/app", Mount::new(2), None);
    let secure = over("/app/x", "https", "localhost");
    let info = router.recognize(&secure, &(), 0);
    assert_eq!(info.resource(), ResourceId::Normal(0));
    assert_eq!(info.match_info().tail(), 4);
    assert_eq!(info.prefix(), 0);
    assert_eq!(id(&router, "/app/x", &()), ResourceId::Normal(1));
    assert_eq!(id(&router, "/application", &()), ResourceId::Default);
}

#[test]
fn filters_look_at_method_and_headers() {
    let mut router = Router::<(), u32>::new();
    let filters: Vec<Box<dyn Predicate<()>>> = vec![Box::new(Asks(Method::POST, "x-key"))];
    router.register_scope(Scope::new(ResourceDef::prefix("/s"), filters, Mount::new(1)));
    let mut headers = HeaderMap::new();
    headers.insert("x-key", "1".parse().unwrap());
    let with = |method: Method, headers: HeaderMap| {
        let req = Request::new(method, "/s/x", headers, "http", "localhost");
        router.recognize(&req, &(), 0).resource()
    };
    assert_eq!(with(Method::POST, headers.clone()), ResourceId::Normal(0));
    assert_eq!(with(Method::GET, headers), ResourceId::Default);
    assert_eq!(with(Method::POST, HeaderMap::new()), ResourceId::Default);
}

#[test]
fn filters_are_asked_until_one_refuses() {
    let asked = Rc::new(Cell::new(0));
    let mut router = Router::<bool, u32>::new();
    let filters: Vec<Box<dyn Predicate<bool>>> =
        vec![Box::new(Counted(asked.clone())), Box::new(Counted(asked.clone()))];
    let scope = Scope::new(ResourceDef::prefix("/s"), filters, Mount::new(1));
    router.register_scope(scope);
    assert_eq!(id(&router, "/t", &true), ResourceId::Default);
    assert_eq!(asked.get(), 0);
    assert_eq!(id(&router, "/s/x", &false), ResourceId::Default);
    assert_eq!(asked.get(), 1);
    assert_eq!(id(&router, "/s/x", &true), ResourceId::Normal(0));
    assert_eq!(asked.get(), 3);
}

#[test]
fn the_next_match_is_found_from_a_position() {
    let mut router = Router::<(), u32>::new();
    router.register_resource(resource("/a"));
    router.register_resource(resource("/{x}"));
    router.register_handler("/a", Mount::new(1), None);
    let req = request("/a");
    let (k, params) = router.next_match(&req, 0, 0).unwrap();
    assert_eq!((k, params.len()), (0, 0));
    let (k, params) = router.next_match(&req, 0, 1).unwrap();
    assert_eq!((k, params.get("x")), (1, Some("a")));
    let (k, params) = router.next_match(&req, 0, 2).unwrap();
    assert_eq!((k, params.tail()), (2, 2));
    assert!(router.next_match(&req, 0, 3).is_none());
}

#[test]
fn a_group_without_a_name_is_recognized() {
    let mut router = Router::<(), u32>::new();
    router.register_resource(resource("/a"));
    router.register_resource(resource("/{x:(b)|c}"));
    let info = router.recognize(&request("/b"), &(), 0);
    assert_eq!(info.resource(), ResourceId::Normal(1));
    assert_eq!(info.match_info().get("x"), Some("b"));
    assert_eq!(id(&router, "/c", &()), ResourceId::Normal(1));
    assert_eq!(id(&router, "/d", &()), ResourceId::Default);
}

#[test]
fn information_outlives_the_router() {
    let mut router = Router::<(), u32>::new();
    router.register_resource(named("/a/{x}", "n"));
    let req = request("/a/1");
    let info = router.recognize(&req, &(), 0);
    router.register_resource(named("/b", "m"));
    assert!(router.is_registered("n"));
    assert!(!info.has_route("/b"));
    assert_eq!(
        info.url_for(&req, "m", &[]),
        Err(UrlGenerationError::ResourceNotFound)
    );
    let later = router.recognize(&req, &(), 0);
    assert!(later.has_route("/b"));
    assert!(later.has_route("/a/2"));
    router.register_external("e", ResourceDef::external("{u}"));
    drop(router);
    assert_eq!(info.name(), "n");
    assert_eq!(
        info.url_for(&req, "n", &["2"]),
        Ok("http://localhost:8080/a/2".to_owned())
    );
    assert_eq!(
        later.url_for(&req, "m", &[]),
        Ok("http://localhost:8080/b".to_owned())
    );
    assert_eq!(
        later.url_for(&req, "e", &["http://x"]),
        Err(UrlGenerationError::ResourceNotFound)
    );
}

#[test]
fn a_resource_below_a_scope_is_reached() {
    let mut outer = Router::<(), u32>::new();
    outer.register_scope(Scope::new(
        ResourceDef::prefix("/app/{version}"),
        vec![],
        Mount::new(1),
    ));
    let mut inner = Router::<(), u32>::new();
    inner.register_resource(resource("/user/{id}"));

    let req = request("/app/v1/user/7");
    let found = outer.recognize(&req, &(), 0);
    assert_eq!(found.resource(), ResourceId::Normal(0));
    assert_eq!(found.match_info().tail(), 7);
    let mut info = inner.recognize(&req, &(), 7);
    assert_eq!(info.resource(), ResourceId::Normal(0));
    info.merge(&found);
    assert_eq!(info.match_info().get("version"), Some("v1"));
    assert_eq!(info.match_info().get("id"), Some("7"));
    assert_eq!(&info.match_info()[0], "v1");
    assert_eq!(info.prefix(), 7);
    assert_eq!(info.match_info().tail(), 14);
    assert_eq!(info.resource(), ResourceId::Normal(0));
}

#[test]
fn a_static_resource_below_a_static_scope_is_reached() {
    let mut outer = Router::<(), u32>::new();
    outer.register_handler("/app/", Mount::new(1), None);
    let mut inner = Router::<(), u32>::new();
    inner.register_resource(resource("/name"));
    inner.register_resource(resource("/"));
    let req = request("/app/name");
    let tail = outer.recognize(&req, &(), 0).match_info().tail();
    assert_eq!(tail, 4);
    assert_eq!(
        inner.recognize(&req, &(), tail as usize).resource(),
        ResourceId::Normal(0)
    );
    // nothing is left of the path for the resource of `/`
    let req = request("/app/");
    let tail = outer.recognize(&req, &(), 0).match_info().tail();
    assert_eq!(tail, 5);
    assert_eq!(
        inner.recognize(&req, &(), tail as usize).resource(),
        ResourceId::Default
    );
}

#[test]
fn merged_parameters_are_looked_up_outside_first() {
    let mut outer = Router::<(), u32>::new();
    outer.register_handler("/{id}", Mount::new(1), None);
    let mut inner = Router::<(), u32>::new();
    inner.register_resource(resource("/{id}/{name}"));
    let req = request("/1/2/3");
    let found = outer.recognize(&req, &(), 0);
    let mut info = inner.recognize(&req, &(), 2);
    assert_eq!(info.match_info().get("id"), Some("2"));
    info.merge(&found);
    assert_eq!(info.match_info().get("id"), Some("1"));
    assert_eq!(info.match_info().get("name"), Some("3"));
    assert_eq!(info.match_info().len(), 3);
}

#[test]
fn a_path_has_a_route_whatever_the_prefix() {
    let mut router = Router::<(), u32>::new();
    router.register_resource(resource("/name"));
    let mut info = router.default_route_info();
    assert!(info.has_route("/name"));
    assert!(!info.has_route("/test/name"));
    assert!(!info.has_route(""));
    info.set_prefix(5);
    assert!(!info.has_route("/test/name"));
    assert_eq!(info.prefix(), 5);
    let found = router.recognize(&request("/test/name"), &(), 5);
    assert_eq!(found.resource(), ResourceId::Normal(0));
}

#[test]
fn the_empty_path_has_the_route_of_a_slash() {
    let mut router = Router::<(), u32>::new();
    router.register_resource(resource("/"));
    assert!(router.default_route_info().has_route(""));
    assert!(router.default_route_info().has_route("/"));
}

#[test]
fn information_can_be_made_up() {
    let mut router = Router::<(), u32>::new();
    router.register_resource(named("/a", "n"));
    let req = request("/a/b");
    let info = router.route_info(&req, 2);
    assert_eq!(info.resource(), ResourceId::Default);
    assert_eq!(info.match_info().tail(), 2);
    assert_eq!(info.prefix(), 0);
    let info = router.route_info_params(0, router::Params::with_url(&req));
    assert_eq!(info.resource(), ResourceId::Normal(0));
    assert_eq!(info.name(), "n");
    assert_eq!(info.rdef().unwrap().pattern(), "/a");
    assert_eq!(info.clone().name(), "n");
}

#[test]
fn names_are_taken_once() {
    let mut router = Router::<(), u32>::new();
    assert!(!router.is_registered("n"));
    router.register_resource(named("/a", "n"));
    assert!(router.is_registered("n"));
    router.register_resource(resource("/b"));
    router.register_resource(resource("/c"));
    assert!(!router.is_registered(""));
    router.register_external("m", ResourceDef::external("/x"));
    assert!(router.is_registered("m"));
    assert!(router.is_registered("n"));
    assert_eq!(id(&router, "/x", &()), ResourceId::Default);
}

#[test]
fn urls_are_generated_from_names() {
    let mut router = Router::<(), u32>::new();
    router.register_resource(named("/user/{name}.{ext}", "index"));
    router.register_resource(named("/static", "s"));
    let req = request("/test");
    let info = router.recognize(&req, &(), 0);
    assert_eq!(info.resource(), ResourceId::Default);
    assert_eq!(
        info.url_for(&req, "unknown", &["test"]),
        Err(UrlGenerationError::ResourceNotFound)
    );
    assert_eq!(
        info.url_for(&req, "index", &["test"]),
        Err(UrlGenerationError::NotEnoughElements)
    );
    assert_eq!(
        info.url_for(&req, "index", &["test", "html"]),
        Ok("http://localhost:8080/user/test.html".to_owned())
    );
    assert_eq!(
        info.url_for(&req, "s", &[]),
        Ok("http://localhost:8080/static".to_owned())
    );
    assert_eq!(
        info.url_for(&req, "index", &["a b", "html"]),
        Ok("http://localhost:8080/user/a%20b.html".to_owned())
    );
}

#[test]
fn urls_are_generated_below_the_prefix() {
    let mut router = Router::<(), u32>::new();
    router.register_resource(named("/user/{name}", "index"));
    let req = over("/app/user/x", "https", "example.org");
    let mut info = router.recognize(&req, &(), 4);
    assert_eq!(info.resource(), ResourceId::Normal(0));
    info.set_prefix(4);
    assert_eq!(
        info.url_for(&req, "index", &["y"]),
        Ok("https://example.org/app/user/y".to_owned())
    );
}

#[test]
fn external_urls_have_no_prefix() {
    let mut router = Router::<(), u32>::new();
    router.register_external(
        "youtube",
        ResourceDef::external("https://youtube.com/watch/{video_id}"),
    );
    let req = request("/test");
    let mut info = router.recognize(&req, &(), 0);
    info.set_prefix(5);
    assert!(!info.has_route("https://youtube.com/watch/unknown"));
    assert_eq!(
        info.url_for(&req, "youtube", &["oHg5SJYRHA0"]),
        Ok("https://youtube.com/watch/oHg5SJYRHA0".to_owned())
    );
}

#[test]
fn what_is_not_a_url_is_refused() {
    let mut router = Router::<(), u32>::new();
    router.register_external("e", ResourceDef::external("{url}"));
    let req = request("/test");
    let info = router.recognize(&req, &(), 0);
    let cases = [
        ("foo", UrlError::RelativeUrlWithoutBase),
        ("http://", UrlError::EmptyHost),
        ("http://a:99999/", UrlError::InvalidPort),
        ("http://1.2.3.256/", UrlError::InvalidIpv4Address),
        ("http://[::1/", UrlError::InvalidIpv6Address),
        ("git://a b/", UrlError::InvalidDomainCharacter),
        ("http://xn--a.org/", UrlError::IdnaError),
    ];
    for (text, error) in cases.iter() {
        assert_eq!(
            info.url_for(&req, "e", &[text]),
            Err(UrlGenerationError::ParseError(*error))
        );
    }
    let mut long = "a".repeat(4999);
    long.push('\u{d1bf1}');
    assert_eq!(
        info.url_for(&req, "e", &[&format!("http://{}/", long)]),
        Err(UrlGenerationError::ParseError(UrlError::IdnaError))
    );
    assert_eq!(
        info.url_for(&req, "e", &["HTTP://Example.ORG"]),
        Ok("http://example.org/".to_owned())
    );
}

#[test]
fn the_connection_goes_before_a_path() {
    let req = over("/x", "https", "example.org:1");
    assert_eq!(
        router::info::absolute_url(&req, "/a"),
        "https://example.org:1/a"
    );
    assert_eq!(router::info::absolute_url(&req, "a"), "a");
    assert_eq!(router::info::absolute_url(&req, ""), "");
    assert_eq!(
        router::info::parsed_url(Err(UrlError::Overflow)),
        Err(UrlGenerationError::ParseError(UrlError::Overflow))
    );
    assert_eq!(
        router::info::parsed_url(Ok("u".to_owned())),
        Ok("u".to_owned())
    );
}

#[test]
fn a_generated_path_with_parameters_is_recognized() {
    let mut router = Router::<(), u32>::new();
    router.register_resource(resource("/user"));
    router.register_resource(named("/user/{id}/{file}.txt", "f"));
    let req = request("/app/user");
    let mut info = router.recognize(&req, &(), 4);
    info.set_prefix(4);
    let url = info.url_for(&req, "f", &["7", "x.y"]).unwrap();
    assert_eq!(url, "http://localhost:8080/app/user/7/x.y.txt");
    let info = router.recognize(&request("/app/user/7/x.y.txt"), &(), 4);
    assert_eq!(info.resource(), ResourceId::Normal(1));
    assert_eq!(info.match_info().get("id"), Some("7"));
    assert_eq!(info.match_info().get("file"), Some("x.y"));
}

#[test]
fn a_generated_path_is_recognized() {
    let mut router = Router::<(), u32>::new();
    router.register_resource(named("/a", "a"));
    router.register_resource(named("/b/c", "b"));
    for (k, name) in ["a", "b"].iter().enumerate() {
        let req = request("/test");
        let info = router.recognize(&req, &(), 0);
        let url = info.url_for(&req, name, &[]).unwrap();
        let path = url.trim_start_matches("http://localhost:8080");
        assert_eq!(id(&router, path, &()), ResourceId::Normal(k as u16));
    }
}

fn routes(action: Action<'_, u32>) -> Vec<(Method, u32)> {
    match action {
        Action::AskResource(routes) | Action::AskDefault(routes) => routes
            .iter()
            .map(|route| (route.method.clone(), route.handler))
            .collect(),
        _ => panic!("no question"),
    }
}

#[test]
fn routes_go_to_the_first_resource_with_the_pattern() {
    let mut router = Router::<(), u32>::new();
    router.register_handler("/a", Mount::new(9), None);
    router.register_route("/a", Method::GET, 1);
    router.register_route("a", Method::GET, 2);
    router.register_route("/a", Method::POST, 3);
    let first = router.handle(ResourceId::Normal(1), Known::Nothing);
    assert_eq!(routes(first), vec![(Method::GET, 1), (Method::POST, 3)]);
    let second = router.handle(ResourceId::Normal(2), Known::Nothing);
    assert_eq!(routes(second), vec![(Method::GET, 2)]);
    assert!(!router.is_registered(""));
}

#[test]
fn a_route_with_a_wrong_pattern_is_refused() {
    let mut router = Router::<(), u32>::new();
    assert!(router.try_register_route("/{a:(}", Method::GET, 1).is_err());
    assert!(router.try_register_handler("/{a:(}", Mount::new(1), None).is_err());
    assert!(router.try_register_route("/{a}", Method::GET, 1).is_ok());
    assert!(router.try_register_handler("/b", Mount::new(2), None).is_ok());
    assert_eq!(id(&router, "/x", &()), ResourceId::Normal(0));
    assert_eq!(id(&router, "/b/c", &()), ResourceId::Normal(1));
}

fn default_resource(handler: u32) -> Rc<Resource<u32>> {
    let mut default = resource("");
    default.route(Method::GET, handler);
    Rc::new(default)
}

fn mount_of(router: &Router<(), u32>, k: u16) -> (u32, Option<u32>, bool) {
    match router.handle(ResourceId::Normal(k), Known::Nothing) {
        Action::RunHandler(mount) | Action::RunScope(mount) => (
            mount.handler,
            mount.default.as_ref().map(|d| d.get_routes()[0].handler),
            mount.finished,
        ),
        _ => panic!("not mounted"),
    }
}

#[test]
fn finishing_gives_defaults() {
    let mut router = Router::<(), u32>::new();
    let mut own = Mount::new(2);
    own.default_resource(default_resource(7));
    router.register_handler("/a", Mount::new(1), None);
    router.register_scope(Scope::new(ResourceDef::prefix("/b"), vec![], own));
    router.register_resource(resource("/c"));

    router.finish();
    assert_eq!(mount_of(&router, 0), (1, None, false));
    assert_eq!(mount_of(&router, 1), (2, Some(7), false));

    router.register_default_resource(default_resource(8));
    assert!(router.has_default_resource());
    router.finish();
    assert_eq!(mount_of(&router, 0), (1, Some(8), true));
    assert_eq!(mount_of(&router, 1), (2, Some(7), true));

    router.register_default_resource(default_resource(9));
    router.finish();
    assert_eq!(mount_of(&router, 0), (1, Some(8), true));
    assert_eq!(mount_of(&router, 1), (2, Some(7), true));
}

#[test]
fn requests_fall_back_on_the_default_resource() {
    let mut router = Router::<(), u32>::new();
    router.register_route("/a", Method::GET, 1);
    let a = ResourceId::Normal(0);
    assert!(matches!(router.handle(a, Known::Nothing), Action::AskResource(_)));
    assert!(matches!(
        router.handle(a, Known::Resource(Some(0))),
        Action::RunRoute(route) if route.handler == 1
    ));
    assert!(matches!(router.handle(a, Known::Resource(None)), Action::NotFound));
    assert!(matches!(
        router.handle(ResourceId::Default, Known::Nothing),
        Action::NotFound
    ));

    router.register_default_resource(default_resource(8));
    assert!(matches!(router.handle(a, Known::Resource(None)), Action::AskDefault(_)));
    assert!(matches!(
        router.handle(ResourceId::Default, Known::Nothing),
        Action::AskDefault(_)
    ));
    assert!(matches!(
        router.handle(a, Known::Default(Some(0))),
        Action::RunRoute(route) if route.handler == 8
    ));
    assert!(matches!(router.handle(a, Known::Default(None)), Action::NotFound));
    assert!(matches!(
        router.handle(ResourceId::Default, Known::Default(Some(0))),
        Action::RunRoute(route) if route.handler == 8
    ));
}

#[test]
fn positions_keep_their_low_bits() {
    let mut router = Router::<(), u32>::new();
    for k in 0..65538u32 {
        router.register_resource(Resource::new(ResourceDef::new(&k.to_string())));
    }
    assert_eq!(id(&router, "/65535", &()), ResourceId::Normal(65535));
    assert_eq!(id(&router, "/65537", &()), ResourceId::Normal(1));
}
