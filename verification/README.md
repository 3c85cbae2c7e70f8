# buprestidae

A small blog engine, verified with Verus.

- `src/` is the library. `models` holds posts, new posts and users; `blog`
  decides which posts the index lists and in what order, what a page shows of a
  post (Markdown rendered to HTML, the post's URL) and which post a form makes;
  `auth` holds the one-time-password check and the login decision; `session`
  keeps the logged-in users' sessions in a least-recently-used cache of ten.
- `app/` is the server around it: Rocket routes, templates, cookies, and the
  PostgreSQL tables through diesel, plus two command-line tools
  (`get-posts`, `new-draft`).
- `tests/` runs the library with the real outside crates linked.
