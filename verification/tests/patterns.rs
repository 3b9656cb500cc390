use std::collections::hash_map::DefaultHasher;
use std::hash::{Hash, Hasher};
use std::rc::Rc;

use http::{HeaderMap, Method};
use router::def::{full_match_params, prefix_match_params};
use router::{Params, PatternElement, Request, ResourceDef, ResourceType, UrlGenerationError};

fn request(path: &str) -> Request {
    Request::new(
        Method::GET,
        path,
        HeaderMap::new(),
        "http",
        "localhost:8080",
    )
}

#[test]
fn test_parse_static() {
    let re = ResourceDef::new("/");
    assert!(re.is_match("/"));
    assert!(!re.is_match("/a"));

    let re = ResourceDef::new("/name");
    assert!(re.is_match("/name"));
    assert!(!re.is_match("/name1"));
    assert!(!re.is_match("/name/"));
    assert!(!re.is_match("/name~"));

    let re = ResourceDef::new("/name/");
    assert!(re.is_match("/name/"));
    assert!(!re.is_match("/name"));
    assert!(!re.is_match("/name/gs"));

    let re = ResourceDef::new("/user/profile");
    assert!(re.is_match("/user/profile"));
    assert!(!re.is_match("/user/profile/profile"));
}

#[test]
fn test_parse_param() {
    let re = ResourceDef::new("/user/{id}");
    assert!(re.is_match("/user/profile"));
    assert!(re.is_match("/user/2345"));
    assert!(!re.is_match("/user/2345/"));
    assert!(!re.is_match("/user/2345/sdg"));

    let req = request("/user/profile");
    let info = re.match_with_params(&req, 0).unwrap();
    assert_eq!(info.get("id").unwrap(), "profile");

    let req = request("/user/1245125");
    let info = re.match_with_params(&req, 0).unwrap();
    assert_eq!(info.get("id").unwrap(), "1245125");

    let re = ResourceDef::new("/v{version}/resource/{id}");
    assert!(re.is_match("/v1/resource/320120"));
    assert!(!re.is_match("/v/resource/1"));
    assert!(!re.is_match("/resource"));

    let req = request("/v151/resource/adahg32");
    let info = re.match_with_params(&req, 0).unwrap();
    assert_eq!(info.get("version").unwrap(), "151");
    assert_eq!(info.get("id").unwrap(), "adahg32");
}

#[test]
fn test_resource_prefix() {
    let re = ResourceDef::prefix("/name");
    assert!(re.is_match("/name"));
    assert!(re.is_match("/name/"));
    assert!(re.is_match("/name/test/test"));
    assert!(re.is_match("/name1"));
    assert!(re.is_match("/name~"));

    let re = ResourceDef::prefix("/name/");
    assert!(re.is_match("/name/"));
    assert!(re.is_match("/name/gs"));
    assert!(!re.is_match("/name"));
}

#[test]
fn test_reousrce_prefix_dynamic() {
    let re = ResourceDef::prefix("/{name}/");
    assert!(re.is_match("/name/"));
    assert!(re.is_match("/name/gs"));
    assert!(!re.is_match("/name"));

    let req = request("/test2/");
    let info = re.match_with_params(&req, 0).unwrap();
    assert_eq!(&info["name"], "test2");
    assert_eq!(&info[0], "test2");

    let req = request("/test2/subpath1/subpath2/index.html");
    let info = re.match_with_params(&req, 0).unwrap();
    assert_eq!(&info["name"], "test2");
    assert_eq!(&info[0], "test2");
}

fn parsed(pattern: &str) -> (String, Vec<PatternElement>, bool, usize) {
    ResourceDef::parse(pattern, "/", false)
}

fn text(s: &str) -> PatternElement {
    PatternElement::Str(s.to_owned())
}

fn var(s: &str) -> PatternElement {
    PatternElement::Var(s.to_owned())
}

#[test]
fn parse_of_a_static_pattern() {
    assert_eq!(
        parsed("/name"),
        ("/name".to_owned(), vec![text("name")], false, 4)
    );
    assert_eq!(parsed("/"), ("/".to_owned(), vec![], false, 0));
    assert_eq!(parsed(""), ("/".to_owned(), vec![], false, 0));
    assert_eq!(
        parsed("/a.b"),
        ("/a.b".to_owned(), vec![text("a.b")], false, 3)
    );
    assert_eq!(
        parsed("//x"),
        ("//x".to_owned(), vec![text("/x")], false, 2)
    );
}

#[test]
fn parse_of_parameters() {
    assert_eq!(
        parsed("/user/{id}.txt"),
        (
            "^/user/(?P<id>[^/]+)\\.txt$".to_owned(),
            vec![text("user/"), var("id"), text(".txt")],
            true,
            4
        )
    );
    assert_eq!(
        parsed("{a}{b:\\d+}"),
        (
            "^/(?P<a>[^/]+)(?P<b>\\d+)$".to_owned(),
            vec![text(""), var("a"), text(""), var("b")],
            true,
            0
        )
    );
    assert_eq!(
        ResourceDef::parse("/{a}/b", "/v1/", true),
        (
            "^/v1/(?P<a>[^/]+)/b".to_owned(),
            vec![text(""), var("a"), text("/b")],
            true,
            2
        )
    );
}

#[test]
fn parse_drops_spaces_before_an_expression() {
    assert_eq!(parsed("/{a:  x y}").0, "^/(?P<a>x y)$");
    assert_eq!(parsed("/{a:   }").0, "^/(?P<a>)$");
}

#[test]
fn parse_takes_the_expression_after_the_last_colon() {
    let (re, elements, dynamic, len) = parsed("/{a:b:c}");
    assert_eq!(re, "^/(?P<a>c)$");
    assert_eq!(elements, vec![text(""), var("a")]);
    assert!(dynamic);
    assert_eq!(len, 0);
}

#[test]
fn parse_drops_an_open_parameter() {
    assert_eq!(
        parsed("/x/{a"),
        ("^/x/$".to_owned(), vec![text("x/")], true, 2)
    );
    assert_eq!(
        parsed("/{a}xy{b"),
        (
            "^/(?P<a>[^/]+)xy$".to_owned(),
            vec![text(""), var("a"), text("xy")],
            true,
            2
        )
    );
}

#[test]
fn the_leading_slash_is_optional() {
    for pattern in ["name", "a/{b}/c", "", "{x}"].iter() {
        let slashed = format!("/{}", pattern);
        assert_eq!(parsed(pattern), parsed(&slashed));
        assert_eq!(
            ResourceDef::parse(pattern, "/p", true),
            ResourceDef::parse(&slashed, "/p", true)
        );
    }
}

#[test]
fn literal_text_is_escaped() {
    let re = ResourceDef::new("/a.b+(c)/{d}");
    assert!(re.is_match("/a.b+(c)/x"));
    assert!(!re.is_match("/aXb+(c)/x"));
    assert!(!re.is_match("/a.bb(c)/x"));
    assert_eq!(parsed("/#&-~{d}").0, "^/\\#\\&\\-\\~(?P<d>[^/]+)$");
}

#[test]
fn a_wrong_expression_is_refused() {
    assert!(ResourceDef::try_new("/{a:(}").is_err());
    assert!(ResourceDef::try_prefix("/{a:[}").is_err());
    assert!(ResourceDef::try_external("/{a:*}").is_err());
    assert!(ResourceDef::try_with_prefix("/{a}", "(", false).is_err());
    assert!(ResourceDef::try_with_prefix("/a", "(", false).is_ok());
    assert!(ResourceDef::try_new("/{a}/{a}").is_err());
    let error = ResourceDef::try_new("/{a:(}").unwrap_err();
    assert!(error.error.to_string().contains("unclosed group"));
}

#[test]
fn a_good_expression_is_accepted() {
    let re = ResourceDef::try_new("/{a:\\d+}").unwrap();
    assert!(re.is_match("/12"));
    assert!(!re.is_match("/x"));
    assert_eq!(re.rtype(), ResourceType::Normal);
    let re = ResourceDef::try_prefix("/{a:\\d+}").unwrap();
    assert!(re.is_match("/12x"));
    let re = ResourceDef::try_external("http://x/{a}").unwrap();
    assert_eq!(re.rtype(), ResourceType::External);
    let re = ResourceDef::try_with_prefix("b", "/a/", false).unwrap();
    assert!(re.is_match("/a/b"));
}

#[test]
fn definitions_keep_their_pattern_and_name() {
    let mut re = ResourceDef::new("user/{id}");
    assert_eq!(re.pattern(), "user/{id}");
    assert_eq!(re.name(), "");
    re.set_name("user");
    assert_eq!(re.name(), "user");
    let copy = re.clone();
    assert_eq!(copy.name(), "user");
    assert_eq!(copy.pattern(), "user/{id}");
    assert!(copy.is_match("/user/x"));
    assert!(!copy.is_match("/user/x/"));
    let req = request("/user/x");
    let params = copy.match_with_params(&req, 0).unwrap();
    assert_eq!(&params["id"], "x");
    assert_eq!(
        copy.resource_path(&["y"], "").unwrap(),
        re.resource_path(&["y"], "").unwrap()
    );
}

fn hash_of(def: &ResourceDef) -> u64 {
    let mut hasher = DefaultHasher::new();
    def.hash(&mut hasher);
    hasher.finish()
}

#[test]
fn definitions_are_compared_by_pattern() {
    let one = ResourceDef::new("/name");
    let mut other = ResourceDef::prefix("/name");
    other.set_name("n");
    assert!(one == other);
    assert_eq!(hash_of(&one), hash_of(&other));
    assert!(one == ResourceDef::external("/name"));
    assert_eq!(hash_of(&one), hash_of(&ResourceDef::external("/name")));
    let mut hasher = DefaultHasher::new();
    String::from("/name").hash(&mut hasher);
    assert_eq!(hash_of(&one), hasher.finish());
    assert!(hash_of(&one) != DefaultHasher::new().finish());
    assert!(one != ResourceDef::new("name"));
    assert!(hash_of(&one) != hash_of(&ResourceDef::new("name")));
}

#[test]
fn a_match_with_parameters_is_a_match() {
    for pattern in ["/a", "/{x}", "/{x}/b", "/"].iter() {
        for path in ["/a", "/a/b", "/", "", "/b/"].iter() {
            for def in [ResourceDef::new(pattern), ResourceDef::prefix(pattern)].iter() {
                let req = request(path);
                let found = def.match_with_params(&req, 0).is_some();
                assert_eq!(found, def.is_match(path));
            }
        }
    }
}

#[test]
fn a_static_match_consumes_nothing() {
    let req = request("/name");
    let params = ResourceDef::new("/name").match_with_params(&req, 0).unwrap();
    assert_eq!(params.tail(), 0);
    assert!(params.is_empty());
    let params = ResourceDef::prefix("/n").match_with_params(&req, 0).unwrap();
    assert_eq!(params.tail(), 0);
    let params = ResourceDef::new("/name")
        .match_prefix_with_params(&req, 0)
        .unwrap();
    assert_eq!(params.tail(), 0);
}

#[test]
fn a_full_match_consumes_the_path() {
    let re = ResourceDef::new("/{a}/{b}");
    let req = request("/test/xx/yyy");
    let params = re.match_with_params(&req, 5).unwrap();
    assert_eq!(params.tail(), 12);
    assert_eq!(params.len(), 2);
    assert_eq!(params.get("a"), Some("xx"));
    assert_eq!(params.get("b"), Some("yyy"));
    assert_eq!(params.get("c"), None);
    assert_eq!(&params[1], "yyy");
    assert_eq!(params.get_at(2), None);
}

#[test]
fn offsets_are_counted_in_bytes() {
    let re = ResourceDef::new("/{a}/\u{e9}");
    let req = request("/\u{e9}\u{20ac}/x\u{e9}/\u{e9}");
    let params = re.match_with_params(&req, 6).unwrap();
    assert_eq!(params.get("a"), Some("x\u{e9}"));
    assert_eq!(params.tail(), 13);
}

#[test]
fn a_group_without_a_name_makes_no_parameter() {
    let re = ResourceDef::new("/{id:(a|b)}");
    let req = request("/a");
    let params = re.match_with_params(&req, 0).unwrap();
    assert_eq!(params.get("id"), Some("a"));
    assert_eq!(params.len(), 1);
    let params = re.match_prefix_with_params(&req, 0).unwrap();
    assert_eq!(params.get("id"), Some("a"));
    assert_eq!(params.tail(), 2);

    let re = ResourceDef::new("/{a:(x)(y)?}/{b:(.)(.)}");
    let req = request("/x/pq");
    let params = re.match_with_params(&req, 0).unwrap();
    assert_eq!(params.get("a"), Some("x"));
    assert_eq!(params.get("b"), Some("pq"));
    assert_eq!(params.len(), 2);
    let params = re.match_prefix_with_params(&req, 0).unwrap();
    assert_eq!(params.tail(), 5);
}

#[test]
fn a_nested_named_group_is_a_parameter() {
    let re = ResourceDef::new("/{a:(?P<b>x)?y}");
    let req = request("/xy");
    let params = re.match_with_params(&req, 0).unwrap();
    assert_eq!(params.get("a"), Some("xy"));
    assert_eq!(params.get("b"), Some("x"));
    let req = request("/y");
    let params = re.match_with_params(&req, 0).unwrap();
    assert_eq!(params.get("a"), Some("y"));
    assert_eq!(params.get("b"), None);
}

#[test]
fn a_name_gives_the_value_of_its_own_group() {
    let re = ResourceDef::new("/{a:(?P<b>x)?y}/{c}");
    let req = request("/y/z");
    let params = re.match_with_params(&req, 0).unwrap();
    assert_eq!(params.get("a"), Some("y"));
    assert_eq!(params.get("b"), None);
    assert_eq!(params.get("c"), Some("z"));
    let req = request("/xy/z");
    let params = re.match_with_params(&req, 0).unwrap();
    assert_eq!(params.get("b"), Some("x"));
    assert_eq!(params.get("c"), Some("z"));
}

fn prefix_tail(prefix: &str, path: &str, plen: usize) -> Option<u16> {
    ResourceDef::prefix(prefix)
        .match_prefix_with_params(&request(path), plen)
        .map(|params| params.tail())
}

#[test]
fn a_prefix_takes_whole_segments() {
    assert_eq!(prefix_tail("/name", "/name", 0), Some(5));
    assert_eq!(prefix_tail("/name", "/name/", 0), Some(5));
    assert_eq!(prefix_tail("/name", "/name/x", 0), Some(5));
    assert_eq!(prefix_tail("/name", "/name1", 0), None);
    assert_eq!(prefix_tail("/name", "/nam", 0), None);
    assert_eq!(prefix_tail("/name/", "/name/x", 0), Some(5));
    assert_eq!(prefix_tail("/name/", "/name/", 0), Some(6));
    assert_eq!(prefix_tail("/name/", "/name", 0), None);
    assert_eq!(prefix_tail("/b", "/a/b/c", 2), Some(4));
}

#[test]
fn an_empty_rest_stands_for_a_slash() {
    assert_eq!(prefix_tail("/", "", 0), Some(0));
    assert_eq!(prefix_tail("/", "/a", 2), Some(2));
    assert_eq!(prefix_tail("/", "/", 0), Some(1));
    assert_eq!(prefix_tail("/", "/a", 0), Some(0));
    assert_eq!(prefix_tail("/b", "/a", 2), None);
    assert!(ResourceDef::new("/")
        .match_prefix_with_params(&request("/a"), 2)
        .is_some());
    assert!(ResourceDef::new("/")
        .match_with_params(&request("/a"), 2)
        .is_none());
}

#[test]
fn a_dynamic_prefix_takes_its_last_literal_text() {
    let re = ResourceDef::prefix("/{name}/");
    let req = request("/app/test2/sub");
    let params = re.match_prefix_with_params(&req, 4).unwrap();
    assert_eq!(params.tail(), 11);
    assert_eq!(&params["name"], "test2");
    let re = ResourceDef::prefix("/{name}");
    let params = re.match_prefix_with_params(&req, 4).unwrap();
    assert_eq!(params.tail(), 10);
    assert!(re.match_prefix_with_params(&request("/"), 1).is_none());
}

#[test]
fn offsets_keep_their_low_bits() {
    let mut path = String::from("/");
    for _ in 0..65540 {
        path.push('a');
    }
    let req = request(&path);
    let params = ResourceDef::new("/{x}").match_with_params(&req, 0).unwrap();
    assert_eq!(params.tail(), 5);
    assert_eq!(params.get("x"), Some("aaaa"));
    let params = ResourceDef::prefix("/{x}")
        .match_prefix_with_params(&req, 0)
        .unwrap();
    assert_eq!(params.tail(), 5);
}

fn shared(names: &[Option<&str>]) -> Vec<Option<Rc<String>>> {
    names
        .iter()
        .map(|name| name.map(|name| Rc::new(String::from(name))))
        .collect()
}

fn items(params: &Params) -> Vec<Option<&str>> {
    (0..params.len()).map(|i| params.get_at(i)).collect()
}

#[test]
fn groups_make_parameters_in_order() {
    let req = request("/ab/cde");
    let names = shared(&[None, Some("x"), Some("y")]);
    let groups = vec![Some((0, 7)), Some((1, 3)), Some((4, 7))];
    let params = full_match_params(&req, 0, &names, &groups);
    assert_eq!(items(&params), vec![Some("ab"), Some("cde")]);
    assert_eq!(params.get("x"), Some("ab"));
    assert_eq!(params.get("y"), Some("cde"));
    assert_eq!(params.tail(), 7);

    let params = prefix_match_params(&req, 0, &names, 2, &groups[..2].to_vec());
    assert_eq!(items(&params), vec![Some("ab")]);
    assert_eq!(params.tail(), 5);

    let params = prefix_match_params(&req, 3, &names, 0, &vec![Some((0, 4)), Some((1, 4))]);
    assert_eq!(params.get("x"), Some("cde"));
    assert_eq!(params.tail(), 7);
}

#[test]
fn a_group_that_takes_no_part_makes_no_parameter() {
    let req = request("/ab/cde");
    let names = shared(&[None, Some("x"), Some("y")]);
    let groups = vec![Some((0, 7)), None, Some((4, 7))];
    let params = full_match_params(&req, 0, &names, &groups);
    assert_eq!(params.len(), 1);
    assert_eq!(params.get("x"), None);
    assert_eq!(params.get("y"), Some("cde"));

    let names = shared(&[None, Some("x"), None, Some("y")]);
    let groups = vec![Some((0, 7)), Some((1, 3)), Some((1, 2)), Some((4, 7)), Some((4, 5))];
    let params = full_match_params(&req, 0, &names, &groups);
    assert_eq!(items(&params), vec![Some("ab"), Some("cde")]);
    assert_eq!(params.get("y"), Some("cde"));
    let params = prefix_match_params(&req, 0, &names, 0, &groups);
    assert_eq!(params.tail(), 7);
}

#[test]
fn the_first_of_two_names_is_found() {
    let req = request("/ab");
    let mut params = Params::with_url(&req);
    params.add(Rc::new(String::from("x")), router::ParamItem::UrlSegment(1, 2));
    params.add(Rc::new(String::from("x")), router::ParamItem::UrlSegment(2, 3));
    params.add(Rc::new(String::from("y")), router::ParamItem::UrlSegment(2, 9));
    params.add(Rc::new(String::from("z")), router::ParamItem::UrlSegment(2, 1));
    assert_eq!(params.get("x"), Some("a"));
    assert_eq!(&params[1], "b");
    assert_eq!(params.get("y"), None);
    assert_eq!(params.get("z"), None);
    assert_eq!(params.clone().get("x"), Some("a"));
}

#[test]
fn a_path_is_generated_from_values() {
    let re = ResourceDef::new("/user/{id}/x{y}");
    assert_eq!(re.resource_path(&["1", "2"], "/").unwrap(), "/user/1/x2");
    assert_eq!(re.resource_path(&["1", "2", "3"], "").unwrap(), "/user/1/x2");
    assert_eq!(
        re.resource_path(&["1"], "/").unwrap_err(),
        UrlGenerationError::NotEnoughElements
    );
    assert_eq!(ResourceDef::new("/a").resource_path(&[], "/p").unwrap(), "/p/a");
    assert_eq!(
        ResourceDef::prefix("/a").resource_path(&["x"], "/p/").unwrap(),
        "/p/a"
    );
    assert_eq!(
        ResourceDef::external("http://x/{a}")
            .resource_path(&["1"], "/p")
            .unwrap(),
        "http://x/1"
    );
}

#[test]
fn paths_meet_in_one_slash() {
    let with_slash = ResourceDef::new("/{a}");
    let bare = ResourceDef::new("{a}");
    for prefix in ["/p", "/p/"].iter() {
        assert_eq!(with_slash.resource_path(&["x"], prefix).unwrap(), "/p/x");
        assert_eq!(bare.resource_path(&["x"], prefix).unwrap(), "/p/x");
        assert_eq!(bare.resource_path(&["/x"], prefix).unwrap(), "/p/x");
    }
    assert_eq!(bare.resource_path(&["x"], "").unwrap(), "/x");
}

#[test]
fn a_generated_static_path_is_matched() {
    for prefix in ["", "/p", "/p/q", "/\u{e9}"].iter() {
        let def = ResourceDef::new("/user/profile");
        let path = def.resource_path(&[], prefix).unwrap();
        assert_eq!(path, format!("{}/user/profile", prefix));
        assert!(def.match_with_params(&request(&path), prefix.len()).is_some());
    }
}

#[test]
fn a_generated_path_with_parameters_is_matched_back() {
    let def = ResourceDef::new("/user/{id}/x{file}.txt");
    let values = ["7", "a.b"];
    let path = def.resource_path(&values, "/p").unwrap();
    assert_eq!(path, "/p/user/7/xa.b.txt");
    let req = request(&path);
    let params = def.match_with_params(&req, 2).unwrap();
    assert_eq!(items(&params), vec![Some("7"), Some("a.b")]);
    assert_eq!(params.get("id"), Some("7"));
    assert_eq!(params.get("file"), Some("a.b"));
    assert_eq!(params.tail(), 18);
}

#[test]
fn matched_values_build_the_path() {
    for pattern in ["/{a}/{b}", "/v{a}-{b}.{c}", "{a}", "/x/{a}", "/x/\u{e9}{a}"].iter() {
        let def = ResourceDef::new(pattern);
        for path in ["/1/2", "/v1-2-3.4.5", "/x", "/x/y", "/x/\u{e9}\u{20ac}\n"].iter() {
            let req = request(path);
            if let Some(params) = def.match_with_params(&req, 0) {
                let values: Vec<&str> = items(&params).into_iter().map(|v| v.unwrap()).collect();
                assert_eq!(def.resource_path(&values, "").unwrap(), *path);
            }
        }
    }
    assert!(ResourceDef::new("/x/\u{e9}{a}").is_match("/x/\u{e9}\u{20ac}\n"));
    assert!(ResourceDef::new("/v{a}-{b}.{c}").is_match("/v1-2-3.4.5"));
}

#[test]
fn a_parameter_is_not_empty_and_holds_no_slash() {
    let def = ResourceDef::new("/a/{x}");
    assert!(!def.is_match("/a/"));
    assert!(!def.is_match("/a/b/c"));
    assert!(!def.is_match("/a/b/"));
    assert!(!def.is_match("x/a/b"));
    assert!(def.is_match("/a/b\n"));
    assert!(def.is_match("/a/\n"));
}

#[test]
fn two_parameters_in_a_segment_may_part_it_otherwise() {
    let def = ResourceDef::new("/{a}.{b}");
    let path = def.resource_path(&["x", "y.z"], "").unwrap();
    let req = request(&path);
    let params = def.match_with_params(&req, 0).unwrap();
    assert_eq!(items(&params), vec![Some("x.y"), Some("z")]);
    assert_eq!(def.resource_path(&["x.y", "z"], "").unwrap(), path);
}

#[test]
fn generating_drops_one_of_two_leading_slashes() {
    let def = ResourceDef::new("//{a}");
    let path = def.resource_path(&["x"], "").unwrap();
    assert_eq!(path, "/x");
    assert!(!def.is_match(&path));
    assert!(def.is_match("//x"));
}

#[test]
fn a_dynamic_prefix_reads_a_beginning() {
    let def = ResourceDef::prefix("/v{a}/{b}/x-");
    let head = def.resource_path(&["1", "two"], "").unwrap();
    assert_eq!(head, "/v1/two/x-");
    let path = format!("/app{}rest/y", head);
    let req = request(&path);
    let params = def.match_prefix_with_params(&req, 4).unwrap();
    assert_eq!(items(&params), vec![Some("1"), Some("two")]);
    assert_eq!(params.tail(), 14);
    assert_eq!(&path[params.tail() as usize..], "rest/y");
    assert!(def.match_prefix_with_params(&request("/v1/two/x"), 0).is_none());
    assert!(def.match_prefix_with_params(&request("/v/two/x-"), 0).is_none());
}

#[test]
fn the_tail_of_a_dynamic_prefix_counts_characters() {
    let def = ResourceDef::prefix("/{a}/\u{e9}");
    let req = request("/x/\u{e9}/y");
    let params = def.match_prefix_with_params(&req, 0).unwrap();
    assert_eq!(params.get("a"), Some("x"));
    assert_eq!(params.tail(), 4);
}
