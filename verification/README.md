# dust-platform

What a disk usage tool needs to know of the platform it runs on, verified with Verus.

- `src/path.rs`: Unix paths as bytes, compared by their components.
- `src/firmlinks.rs`: the firmlinks of macOS: reading the system's list of them, and finding the
  path on the other side of one.
- `src/firmlink_laws.rs`: what holds of crossing firmlinks and of reading them.
- `src/text.rs`, `src/encoding.rs`: splitting text, and that it commutes with UTF-8 encoding.
- `src/unix.rs`, `src/windows.rs`, `src/metadata.rs`: the size, the identity and the times that are
  told of a file, from what the system reports.
- `app/`: asks the operating system, and hands the library plain values.
