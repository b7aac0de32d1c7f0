# md-files engine, verified

The markdown engine of the md-files tool suite (`mdread`, `md2html`,
`md2docx`) written in Verus: GitHub Flavored Markdown through
pulldown-cmark, mermaid diagram containers, on-disk image resolution with
serve-root widening, markdown link routing, page assembly, working-note
stripping and the command lines and decisions of the three tools, each
with a contract proved by Verus.

* `src/` — the verified library. Paths use Unix or Windows syntax, as the
  caller's `PathStyle` says (the programs pass their platform's). The engine never
  touches the disk: what it needs to know (which files exist, the bytes of
  the images it inlines) arrives as `FileFacts` for the paths that
  `disk_queries`, `inline_queries` and `md2html_queries` list.
* `app/` — the executables around it: file and terminal I/O, pandoc, the
  wry/tao window, and the zoom factor (a float).
* `tests/` — the tests of the suite, run against the library.
