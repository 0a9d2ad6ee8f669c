# tokimo-package-fileparser

A unified file parser: given an input file and an output directory, it
recognises the input by its extension and writes a folder
`<output_dir>/<stem>/` with one Markdown file per page / sheet / slide /
section (`page-001.md`, `section-002-Sheet1.md`, `chapter-003-Intro.md`, …)
and an `images/` folder holding every embedded image in its native format.

Supported inputs: PDF, DOCX / XLSX / XLSM / PPTX and the legacy DOC / XLS /
PPT, CSV / TSV, plain text and logs, Markdown, HTML, JSON, and archives.

## Layout

- `src/` is the library, verified with Verus. It decides everything about
  the output: how an input is recognised, the archive size limit, the folder
  and file names, decoding of text of unknown encoding, the Markdown for text,
  tables, HTML and PDF pages, how long sections are split into pages or
  chapters, which package entries become images / media / embedded objects and
  where each is written, the slide / sheet grouping of package images read
  from the `.rels` manifests, and the `tree(1)`-style rendering of the result.
  - `format.rs`: input kinds.
  - `util.rs`: file-name sanitising and output folder names.
  - `text.rs`: text decoding and the text, CSV, HTML and JSON renderers.
  - `office.rs`: office documents: section splitting, `.rels` manifests,
    media buckets, reading the package zip from its bytes, package assets and
    chunk file names.
  - `pdf.rs`: PDF pages; which objects are images or embedded files and
    what is written for each (JPEG, JPEG 2000 and fax streams as they are,
    grey / RGB / CMYK rasters of 1, 2, 4, 8 or 16 bits as PNG).
  - `output.rs`: the file tree and its rendering.
- `app/` is the file-system side: `parse` / `parse_with_options`, reading
  inputs, calling the document readers (`office_oxide`, `lopdf`,
  `pdf-extract`, the archiver) and handing their results to the library as
  plain values, writing files, and the serialisable
  copies of the result and error types.
- `tests/` runs the library on concrete inputs.

Each public function in `src/` states its result in its `ensures` clause
(for inputs named by a path, for every path that all platforms split
alike: `/`-separated, without a Windows prefix, ending in a file name);
the properties that span several calls are stated and proved as `lemma_*`
proof functions next to the code they describe.
