# quizmark

Generates printed multiple-choice quizzes for a class and marks the scanned
answer sheets.

- `src/` is the verified library (Verus). It holds the quiz markup and answer
  keys (`markup`), the planning of the merged PDF (`pdfmerge`), the reading of
  page tags and the grouping of scanned pages by student (`ingest`,
  `page_index`), and the image analysis of a scanned page: dark-pixel profiles
  (`profile`), answer-table cells (`cells`), marker geometry (`geometry`),
  marker codes (`aruco`) and the ink in answer cells (`grading`). Calls into
  `image`, `imageproc`, `rand` and `rxing` stand behind small trusted functions
  whose contracts are documented where they are declared.
- `tests/` runs the library on concrete inputs.
- `app/` is the command-line program: argument parsing, file I/O, PDF
  rendering and writing, and the steps that work in floating point
  (polygon approximation, perspective warp, rotation, fill fractions).

The Typst template and the marker images are read at run time from `assets/`
(`template.typ`, `marker_0.png` … `marker_7.png`); PDFs are compiled with the
`typst` command-line compiler.
