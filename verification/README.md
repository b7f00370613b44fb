# wiivci_core

Building blocks of an injector that turns a Wii or GameCube game into an installable Wii U Virtual
Console package. The logic is written in Verus: every function in `src/` carries a contract, and
`pub proof fn`s state what holds across functions.

- `src/package/` — assigning staged files to contents, the filesystem table, the plaintext of
  contents, output names, and the steps of a build. `content/laws.rs`, `content/placement.rs`,
  `content/grouping.rs`, `content/determinism.rs` and `content/relocation.rs` state what holds of
  every plan.
- `src/wii_author/`, `src/hash_tree.rs` — the synthetic Wii disc for GameCube games and its hash
  tree.
- `src/base.rs`, `src/apploader.rs`, `src/nus.rs` — the base title: staging, archives, downloads, and
  what is taken from its own disc.
- `src/assets/` — boot textures, artwork, titles and the GameCube forwarder.
- `src/fwimg.rs`, `src/nfs/`, `src/meta/` — firmware patches, NFS sectors, title ids.
- `src/pipeline.rs`, `src/cli.rs` — the decisions of an injection and the values of its arguments.
- `src/text.rs`, `src/bytes.rs`, `src/paths.rs`, `src/digest.rs`, `src/aes_cbc.rs` — what the rest is
  built on, with the wrappers around SHA-1, SHA-256 and AES.
- `app/` — ordinary Rust around the library: arguments, files, archives, discs and the network. The
  encoders of the remaining console formats are handed in as a trait.

Trusted declarations are marked `#[verifier::external_body]` or `assume_specification`; each says
which outside function it stands for and what is claimed of it.
