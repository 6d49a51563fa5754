# visual_git

A small local web page that shows `git status` of a repository and updates
itself when files change.

- `src/` is the verified library:
  - `git.rs`: the status model and the parser for
    `git status --porcelain=v2 --branch -z --untracked-files=all`, with the
    stable sort of entries by path and the error snapshot used when git fails;
  - `http.rs`: methods, status codes, responses, the parser of request heads
    (request line, `Content-Length`), and the bytes of response heads;
  - `router.rs`: routing by path and method, and content types of files;
  - `dynerror.rs`: an error type with context chains and error traces;
  - `ui_assets.rs`: the table of frontend files served by web path;
  - `text.rs`: UTF-8, whitespace, decimal numbers and byte-string order;
  - `util.rs`: the clock;
  - `watch.rs`: what the repository watcher does after each event.
- `app/` is the program around it: sockets, threads, the file watcher
  (`notify`), running `git`, JSON (`nanoserde`), reading the frontend files
  of `ui-dist` at start-up, and opening the browser.
- `tests/` exercises the library on concrete inputs.
