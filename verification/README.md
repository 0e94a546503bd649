# convmdblog

Converts a directory of markdown notes into the posts of a Jekyll blog.
Each note opens with a YAML front matter between two `---` lines; its post is
named `<date>-<stem>.md`, gets a new front matter (title, date, layout,
MathJax, category from the note's tags), and has its image paths, image
HTML and links to other notes rewritten for the blog.

- `src/` is the library, verified with Verus: paths as strings
  (`paths`), character classes and string helpers (`text`), file names and
  front-matter dates (`aux`), locating the front matter (`reader`), tags,
  links, image paths and the post itself (`mapper`), the passes over a
  note's markdown events (`events`), and the directory walk's decisions
  (`batcher`).
- `app/` is the `convmd` program: command line, file system access, YAML
  parsing of front matters, and the reading of the notes that links point
  to; it calls the library for every decision.
- `tests/` runs the library, and checks its matchers against the `regex`
  crate and its path functions against `std::path`.

The markdown of a post is written back from its events by
`pulldown-cmark-to-cmark`, so its layout (list markers, emphasis marks,
spacing) may differ from the note's while it reads the same.
