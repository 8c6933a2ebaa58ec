# vmz_compiler

The verified core of the VMZ compiler, written in Verus. `src/` is the library:
every function there carries a `requires`/`ensures` contract that Verus proves,
stated over spec functions on plain values (`Seq<char>`, `Seq`, `Set`, a JSON
model). Where the library's logic starts from a JSON or JSON5 text (server
artifacts and adapter projections, theme metadata, token files, deployment
units, the applications config and package descriptors, declared links,
author JSON5), the parse happens inside the library through serde_json or
json5 behind trusted wrappers, and what is decided from the parsed document
(defaults, warnings, which entries count) is verified. `app/` holds the thin
ordinary-Rust layer around it: file and directory reads, walks and writes,
printing, SVG rasterising, and the copies of library types that carry serde
derives (the locale, document, deployment, relocation and static-delivery
documents are read into those copies with serde there).

Main areas of the library:

- `designs`, `theme_css`, `token_file`: the Style Theme, its tables, CSS
  variables, content hash and the design token files.
- `application`, `reloc`, `isolation`, `affected`: application bases and
  relocation, per-application namespaces and failure containment, dirty-path
  to affected-application selection and the test modes it feeds.
- `contract`, `proxy`, `composition`: application descriptors, the host's
  applications config, mount validation and the catalog; dev reverse-proxy
  dispatch over the mount table; cross-application Link resolution.
- `deployment`, `dep_graph`, `dx_x1`, `dx_x4`, `check`: deployment graphs,
  component dependency graphs and their closures, developer-experience
  documents and template checks.
- `server_artifact`, `static_delivery`, `json`: server artifacts with their
  digest, static delivery manifests and the canonical JSON they use.
- `wechat_pack`, `wechat_plan`, `wechat_wxss`, `multi_adapter`, `plan_scan`:
  mini-program packaging, the WeChat page and tab-bar plan, adapter
  conformance, and the target-neutral Execution Plan check.
- `native_host`, `locale`, `document`, `method_compose`, `emit`: native host
  manifests, locale and document plans, read/write composition across methods,
  and import rewriting.

Calls into outside code (SHA-256, serde_json and json5 parsing, serde_json
string escaping, a few `std::path` and `char`/`str` functions) go through small trusted wrappers whose contracts
name or state what the outside function returns.
