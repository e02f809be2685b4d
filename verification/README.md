# jackdaw_build

Decides how a game or extension project is built against a prebuilt SDK, so
that the whole dependency graph shares the SDK's crates.

The library is verified with Verus; it takes and returns plain values. Files,
processes and the environment are handled in `app/`.

- `manifest` holds the SDK's artifacts: crate, version, features, path. It is
  read from and written to a text file. `generate` makes one from what cargo
  reports of a build, `link_paths` keeps the native search paths beside it.
- `plan` joins a manifest with a project's resolve graph: which packages to pin
  to the SDK's version, and which dependency edges redirect to its artifacts.
- `extern_map`, `redirect` and `wrapper` rewrite one rustc invocation along
  such a plan; `argfile` reads and writes response files.
- `json`, `package_id`, `text`, `order`, `os_text`, `host` and `error` are what
  these rest on. `json` and `host` hold the calls into `serde_json` and into
  the parts of `std` that are taken on trust.

What holds across functions is stated and proved in the `*_laws` modules, among
them: a manifest, a plan, a list of search paths and a response file are each
read back as they were written, with the exact condition on their contents; an
edge redirects only at the version the project resolved; features never decide
what redirects; arguments other than dependencies are kept; on one host a plan
made twice is the same.

How a path is read depends on the host. `host` states what Unix and what
Windows make of a path; a contract that rests on it says that one of the two
holds.
