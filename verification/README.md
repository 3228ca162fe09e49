# halyard_tachys

The server side of the halyard renderer, verified with Verus: how keyed lists are
updated, how views write their HTML, how the HTML stream is put together and streamed,
how hydration walks the DOM and reports a mismatch, and which routes the axum integration
can put on a router.

## Layout

- `src/` is the library. Every function in it has a contract that Verus proves.
  - `keys`, `list_diff`, `list_apply`, `diff_order`, `plan_fill`, `slots`, `page_order`,
    `page_model`: the keyed list diff (`diff`), carrying out its plan on the rendered rows
    (`apply_or_rebuild`, `reconcile`), with the proofs that the page ends up showing the
    new items in order, and a model page to run it on.
  - `view`, `strings`, `html`, `iterators`, `keyed`, `template`: views and the HTML they
    write, with their length estimates.
  - `ssr`: the HTML stream: chunks of text, chunks that wait for a future in order, and
    out-of-order chunks that replace their fallback; the stream's decisions, step by step.
  - `dom_tree`, `hydration`: the DOM that hydration walks, the cursor, and the report of a
    mismatch with the node's path.
  - `route_path`, `server_paths`, `request_error`: what axum's router accepts, and the
    paths, errors and headers of the axum integration.
- `tests/` runs the library on concrete values.
- `app/` is what stays outside the verified library: logging, the axum router and
  responses, and the stream driver that awaits the futures the stream waits for.
