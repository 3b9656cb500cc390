# router

A request router whose behaviour is stated in contracts and proved with Verus.

A router holds resources, scopes and mounted handlers, each with a pattern of
paths such as `/file/{name}.{ext}`. It finds the first that takes a request, and
what the parameters of its pattern stand for; and it generates URLs from the
names of resources.

- `src/pattern.rs` reads patterns.
- `src/def.rs` matches paths with them and generates paths from them.
- `src/plain.rs` relates generating and matching for patterns whose parameters
  bring no expressions of their own.
- `src/params.rs` holds requests and parameters.
- `src/resource.rs` holds what is registered, `src/router.rs` the router.
- `src/info.rs` says what is known of a request after it was recognized.
- `src/dispatch.rs` has the steps by which a request is answered.
- `src/text.rs` relates characters and byte offsets.
- `src/laws.rs` proves what holds of the library as a whole.
- `src/regexes.rs` and `src/urls.rs` say what is taken for granted of the crates
  `regex` and `url`. Nothing else rests on trust but `String::push` and
  `String::hash` of the standard library, and that the types of methods and
  headers of the crate `http` exist.

The library carries handlers and does not call them. `app/` does: it turns HTTP
requests into those of the library, and follows the steps that the router gives.
