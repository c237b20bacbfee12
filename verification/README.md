# xlsx_searcher

Search and preview logic for folders of Excel workbooks (`xlsx`, `xlsm`,
`xls`), verified with Verus.

- `src/` is the verified library:
  - `alias` — alias mapping files (`ConfigName Sheet1 Sheet2 ...`, and the
    `call <script> Alias... Sheet...` form) and their decoding;
  - `bytes`, `text`, `utf8` — byte and character helpers;
  - `sheet_xml`, `shared_strings`, `sheet_scan` — the lenient reader of
    worksheet XML, shared strings and cells;
  - `cell_stream` — the cells of worksheet XML as a plain sequence, which a
    scan hands to its sink one by one;
  - `matching`, `preview` — keyword matching and sheet previews (from XML or
    from a grid of cell texts);
  - `workbook` — supported files, sheet names and sheet parts of a workbook;
  - `query`, `results`, `indexing` — the SQL of the index, search results and
    CSV export, and the plans that keep the index in step with the disk;
  - `jobs`, `access`, `config` — the background job, access to the local API,
    and the saved configuration;
  - `laws` — properties of the library as a whole.
- `app/` is the HTTP server around it: SQLite, the file system, archives and
  the general workbook reader.
- `tests/` exercises the library on concrete values.
