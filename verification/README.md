# buffa_codegen

Verified building blocks of a protobuf code generator.

- `comments`, `doc_lines`, `sanitize`: proto source comments keyed by FQN,
  and their rendering into rustdoc lines (indented code fenced, author
  fences made inert, AIP-192 references resolved to intra-doc links,
  everything else escaped).
- `defaults`: C-escape decoding of `bytes` defaults, the literal a
  field's `default_value` stands for, and the default an opened required
  enum field keeps.
- `feature_overrides`: path-scoped `enum_type = OPEN` overrides written
  into a copy of the descriptor set, with inert rules reported.
- `imports`: package-root `use` short names, assigned soundly and
  independently of request order.
- `enumeration`: which enum values become variants and which aliases, the
  generated enum's `Default`, `from_i32`, name and `values()` layout, and
  the idiomatic CamelCase alias constants (all or nothing per enum).
- `reflect_fields`: the per-field `get`/`has` decisions of vtable-mode
  reflection on owned messages and views.
- `wkt_jiff`: `Duration` / `Timestamp` conversions to and from `jiff`.
- `reprs`, `reflect`: string/bytes representation newtypes and the
  reflection mode switch.
- `descriptor`, `string_map`, `name_set`, `text`, `idents`, `error`:
  the descriptor model, sorted maps and sets, text helpers.

Each public function states its result in `ensures`; the `law_*` proof
functions state the properties that span calls. `app/` renders the
library's results as `proc_macro2` tokens (doc attributes, `use` items,
defaults, the enum and its `Enumeration` impl, the reflection impls),
reports the generation-time warnings, and holds the serde and `thiserror`
forms of library types. The caller resolves what the library is handed:
field features, Rust paths and identifiers, case conversions.
