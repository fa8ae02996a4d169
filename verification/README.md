# server_rendered_source

Serves the `pages` or `src/pages` directory of a project as server-rendered
pages.

- `src/` is the verified library. `server` finds the pages of a project and
  plans the source that serves them; `pages` plans the sources of a directory;
  `route` writes the regular expression of a page; `regular_expression` is the
  boundary to the `regex` crate; `text` cuts and joins text; `laws` states what
  holds of all pages.
- `app/` reads the file system and builds the values of the bundler from the
  plan.
- `tests/` runs the library.
