# occ_secure_exports

The verified core of a desktop client that downloads (and, for `.age`
objects, decrypts) S3 exports:

- `src/sanitize.rs`: making one path segment safe on Windows (illegal and
  control characters, trailing dots and spaces, reserved device names) and the
  extended-length (`\\?\`) form of drive-absolute paths.
- `src/naming.rs`: the plaintext file name of an object key and the safe
  segments of a relative path; proofs that neither can leave the destination
  directory.
- `src/paths.rs`: destination paths, and claiming a path no earlier file of a
  batch holds (case-insensitively where the file system is).
- `src/transfer.rs`: decrypt-or-copy decision, progress size hint, temporary
  file names, and the steps of a plain stream copy.
- `src/profile.rs`: connection profiles (upsert/delete by id), secure-store
  account names, and the decisions taken on what the secure store answers.
- `src/text.rs`: character classes, trimming, splitting, decimal rendering.

`app/` holds the I/O around it: the S3 download with its blocking writer,
the profile file on disk, the `keyring` calls, and serde forms of the data.
