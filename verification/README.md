# lynx_yew

The decision logic of a Yew renderer for the Lynx host runtime, verified
with Verus, and a thin host crate around it.

- `src/` is the verified library: CSS token streams and their encoding,
  the grow-and-retry protocol of host string and array calls, keys and
  keyed child-list reconciliation plans (with what performing a plan does
  to the host's children), the steps that attach and update elements and
  suspense boundaries, the lifecycle scheduler and the
  component lifecycle state machine, timers, listener registries and
  subtrees, DOM positions, attribute diffs, element
  namespaces and inline-image data URLs.
- `app/` performs what the library decides: the imported host functions,
  the thread-local runtime (scheduler loop, timers, spawned futures), the
  cssparser front end of the CSS token stream, the file reads of inline
  images, and the performing of child-list plans and attribute writes on
  host nodes.
- `tests/` runs the library on concrete values.
