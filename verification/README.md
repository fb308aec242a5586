# feishu-unreadme-app

A patcher for the Feishu (Lark) desktop client's `messenger.asar`: it
inserts JavaScript snippets before the matches of a set of regular
expressions, repacks the archive, keeps the original as `messenger.asar.bak`
and can put it back.

- `src/` is the library, verified with Verus: the asar frame and header
  tree (`pickle`, `tree`, `asar`, `pack`), the patch rules (`patcher`,
  `splice`), the search for an installation (`feishu_locator`), the
  patching sequence and its failure handling (`orchestrator`), the
  persisted state (`state`), the status shown to the user (`commands`) and
  the SHA-256 fingerprint (`digest`). Its public proof functions state the
  laws: reading back what was packed; repacking what was unpacked (same
  files, same contents, and the same listing when the header's names are
  in order); the listing naming exactly the files, each once, in order;
  insertion in reverse offset order; the original archive surviving every
  failure of a patch (after the archive is replaced, by renaming the backup
  back over it); unpacking, patching and repacking end to end; restoring
  after a patch giving back the original archive; and the status shown
  right after patching and after restoring.
- `app/` is the application around it: files and directories, JSON, the
  Tauri commands and the self-updater.
- `tests/` runs the library on concrete values.
