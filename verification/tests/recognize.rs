use http::{HeaderMap, Method};
use router::{Request, Resource, ResourceDef, ResourceId, Router};

fn request(path: &str) -> Request {
    Request::new(
        Method::GET,
        path,
        HeaderMap::new(),
        "http",
        "localhost:8080",
    )
}

fn resource(pattern: &str) -> Resource<()> {
    Resource::new(ResourceDef::new(pattern))
}

#[test]
fn test_recognizer10() {
    let mut router = Router::<(), ()>::new();
    router.register_resource(resource("/name"));
    router.register_resource(resource("/name/{val}"));
    router.register_resource(resource("/name/{val}/index.html"));
    router.register_resource(resource("/file/{file}.{ext}"));
    router.register_resource(resource("/v{val}/{val2}/index.html"));
    router.register_resource(resource("/v/{tail:.*}"));
    router.register_resource(resource("/test2/{test}.html"));
    router.register_resource(resource("{test}/index.html"));

    let req = request("/name");
    let info = router.recognize(&req, &(), 0);
    assert_eq!(info.resource(), ResourceId::Normal(0));
    assert!(info.match_info().is_empty());

    let req = request("/name/value");
    let info = router.recognize(&req, &(), 0);
    assert_eq!(info.resource(), ResourceId::Normal(1));
    assert_eq!(info.match_info().get("val").unwrap(), "value");
    assert_eq!(&info.match_info()["val"], "value");

    let req = request("/name/value2/index.html");
    let info = router.recognize(&req, &(), 0);
    assert_eq!(info.resource(), ResourceId::Normal(2));
    assert_eq!(info.match_info().get("val").unwrap(), "value2");

    let req = request("/file/file.gz");
    let info = router.recognize(&req, &(), 0);
    assert_eq!(info.resource(), ResourceId::Normal(3));
    assert_eq!(info.match_info().get("file").unwrap(), "file");
    assert_eq!(info.match_info().get("ext").unwrap(), "gz");

    let req = request("/vtest/ttt/index.html");
    let info = router.recognize(&req, &(), 0);
    assert_eq!(info.resource(), ResourceId::Normal(4));
    assert_eq!(info.match_info().get("val").unwrap(), "test");
    assert_eq!(info.match_info().get("val2").unwrap(), "ttt");

    let req = request("/v/blah-blah/index.html");
    let info = router.recognize(&req, &(), 0);
    assert_eq!(info.resource(), ResourceId::Normal(5));
    assert_eq!(
        info.match_info().get("tail").unwrap(),
        "blah-blah/index.html"
    );

    let req = request("/test2/index.html");
    let info = router.recognize(&req, &(), 0);
    assert_eq!(info.resource(), ResourceId::Normal(6));
    assert_eq!(info.match_info().get("test").unwrap(), "index");

    let req = request("/bbb/index.html");
    let info = router.recognize(&req, &(), 0);
    assert_eq!(info.resource(), ResourceId::Normal(7));
    assert_eq!(info.match_info().get("test").unwrap(), "bbb");
}

#[test]
fn test_recognizer_2() {
    let mut router = Router::<(), ()>::new();
    router.register_resource(resource("/index.json"));
    router.register_resource(resource("/{source}.json"));

    let req = request("/index.json");
    let info = router.recognize(&req, &(), 0);
    assert_eq!(info.resource(), ResourceId::Normal(0));

    let req = request("/test.json");
    let info = router.recognize(&req, &(), 0);
    assert_eq!(info.resource(), ResourceId::Normal(1));
}

#[test]
fn test_recognizer_with_prefix() {
    let mut router = Router::<(), ()>::new();
    router.register_resource(resource("/name"));
    router.register_resource(resource("/name/{val}"));

    let req = request("/name");
    let info = router.recognize(&req, &(), 5);
    assert_eq!(info.resource(), ResourceId::Default);

    let req = request("/test/name");
    let info = router.recognize(&req, &(), 5);
    assert_eq!(info.resource(), ResourceId::Normal(0));

    let req = request("/test/name/value");
    let info = router.recognize(&req, &(), 5);
    assert_eq!(info.resource(), ResourceId::Normal(1));
    assert_eq!(info.match_info().get("val").unwrap(), "value");
    assert_eq!(&info.match_info()["val"], "value");

    // same patterns
    let mut router = Router::<(), ()>::new();
    router.register_resource(resource("/name"));
    router.register_resource(resource("/name/{val}"));

    let req = request("/name");
    let info = router.recognize(&req, &(), 6);
    assert_eq!(info.resource(), ResourceId::Default);

    let req = request("/test2/name");
    let info = router.recognize(&req, &(), 6);
    assert_eq!(info.resource(), ResourceId::Normal(0));

    let req = request("/test2/name-test");
    let info = router.recognize(&req, &(), 6);
    assert_eq!(info.resource(), ResourceId::Default);

    let req = request("/test2/name/ttt");
    let info = router.recognize(&req, &(), 6);
    assert_eq!(info.resource(), ResourceId::Normal(1));
    assert_eq!(&info.match_info()["val"], "ttt");
}

#[test]
fn test_request_resource() {
    let mut router = Router::<(), ()>::new();
    let mut resource = Resource::new(ResourceDef::new("/index.json"));
    resource.name("r1");
    router.register_resource(resource);
    let mut resource = Resource::new(ResourceDef::new("/test.json"));
    resource.name("r2");
    router.register_resource(resource);

    let req = request("/index.json");
    let info = router.recognize(&req, &(), 0);
    assert_eq!(info.resource(), ResourceId::Normal(0));

    assert_eq!(info.name(), "r1");

    let req = request("/test.json");
    let info = router.recognize(&req, &(), 0);
    assert_eq!(info.resource(), ResourceId::Normal(1));
    assert_eq!(info.name(), "r2");
}
