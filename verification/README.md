# luna

The verified core of Project Luna, written in Verus: the boot loader's
parsers and policy, the LBP1 bundle container, ELF dependency planning and
the application lifecycle. Each public function carries a contract that says
what it returns, and Verus proves the code against it.

## Layout

- `src/` — the library, all of it verified.
  - Boot: `gpt`, `ext4`, `config_text`, `discovery`, `catalog` (targets,
    init cores and kernels paired; discovery over any `SystemFiles`),
    `boot_plan` (menu and target choice), `attempt`, `data_partition`,
    `linux_boot`, `paging`, `handoff`, `kernel_image`.
  - Bundles: `manifest` (validation rules), `payload` (the tar payload
    built from the manifest's sources), `lbp` (the container codec and its
    laws), `tarball`, `compress` (zstd), `digest` (BLAKE3), `bundle`.
  - Applications: `elf` (ELF parsing and the dependency closure, with
    `MemoryElfResolver`), `elf_search`, `launch`, `runtime` (instance
    lifecycle, the in-memory registry and `LinuxApplicationRuntime`'s
    bookkeeping).
  - Desktop session: `session`, `graphics` (DRM model and request numbers),
    `device`, `services`, `user_auth`.
  - Shared: `text`, `bytes`, `path`, `order`, `common`.
- `tests/` — the test suites, run against the compiled library.
- `app/` — the `luna` command: file and device I/O around the library
  (packing and extracting bundles, device listings, ELF closures over a
  directory tree, boot confirmation, authentication).

The calls into zstd, BLAKE3 and tar sit behind small wrappers whose
contracts say what those crates do; everything around them is proved.
