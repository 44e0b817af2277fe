# dryve

Pulls and syncs publicly shared Google Drive folders. The decisions the tool
makes are a verified library; the program around it does the network, file
and terminal work.

- `src/` — the library, verified with Verus:
  - `parser.rs`: reading a folder page (title, escaped listing data, entries);
  - `node.rs`: the drive tree, its printed form, and the diff between two trees;
  - `download.rs`, `pool.rs`: files to fetch and folders to create for a tree,
    download and confirmation addresses;
  - `reversal.rs`: comparing two trees the other way round;
  - `cmd_sync.rs`: the plan that applies a diff;
  - `drive.rs`: folder ids and folder page addresses;
  - `selector.rs`: the interactive selector's rows, selection, key handling and
    screen;
  - `progress.rs`, `utils.rs`: download progress and file-name sanitizing;
  - `text.rs`: searching and building character sequences.
- `app/` — the command-line program: argument parsing, HTTP, files, the
  thread pool and the terminal.
- `tests/` — tests of the library on concrete values.
