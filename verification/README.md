# paperdown

`paperdown` converts research papers from PDF to Markdown. A recognition service reads the PDF;
`paperdown` downloads the figures that the service points at, rewrites HTML tables as records,
and, where asked, makes an Open Knowledge Format bundle of the paper.

- `src/` is the library: what is read out of a reply, what is made of it, where it goes and what is
  reported, each with a contract that Verus proves. It takes and gives plain values, and does no
  input or output. Paths are text, as POSIX systems or Windows write them.
- `app/` is the program around it: the command line, configuration files, requests, files,
  progress bars, and the order in which these follow one another.
- `tests/` runs the library.

What is not proved are the contracts of the few functions of other crates and of the standard
library that the library calls. Each stands in the module that needs it, with a comment that says
what is claimed.

| Module | What it is about |
| --- | --- |
| `text`, `pieces`, `number`, `order`, `paths`, `scan`, `pattern` | text, and how it is searched and taken apart |
| `tables` | HTML tables: rows and cells, the grid they span, columns, records |
| `html`, `segments`, `images` | HTML fragments and images in Markdown |
| `json`, `layout`, `ocr`, `assets` | the service's requests and replies, the layout, figures |
| `okf` | title, abstract and keywords, indexes, the log of updates |
| `config`, `cli`, `input`, `output`, `batch`, `paper` | settings, what is processed, where it goes, what is reported |
