# simple_starter

A modular application framework (dependency injection, component lifecycle,
layered configuration, plugins, events, request security) whose deciding
logic is written and proved in Verus.

- `src/` is the verified library: the component load plan (conditions,
  primary instances, dependency graph, creation order, cycle reports), the
  container's lookups and indexes, configuration values and their layering,
  profile and runtime choices, plugin ordering, the freeze cell and the
  extension store, the event listener index, the whitelist, the resource map
  and the access decision, the logger settings, and path and naming
  helpers (route joining, `{x}` to `:x`, snake case, short type names). Each
  public function states its result in `ensures`; the `law_*` proof
  functions state what holds across calls.
- `tests/` runs the library on concrete values.
- `app/` is the runtime around it: TOML files, the tracing subscriber, the
  Tokio runtime and cron scheduler, the async create/init/destroy sequence,
  link-time registrations through `inventory`, and the type-erased
  component handles.
- There are no declarative attribute macros (`#[component]`, `#[inject]`,
  routes, `#[cron_job]`, security annotations): components, trait
  implementations, listeners, cron jobs and resources are registered by
  hand with `inventory::submit!` of the `app/` registration types.
