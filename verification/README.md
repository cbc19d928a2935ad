# clearlinux

A Linux junk-file cleaner. The verified library (`src/`) holds its rules:

- `tree`: directory snapshots, their sizes, the files they hold and the
  deletions a cleaning run performs, with the bytes and files it reports.
- `logs`: the rotated-log rule for `/var/log` (`.gz`, `.old`, `.1`, `.2`, `.3`).
- `scan`: the categories of junk and the scan over snapshots of their directories.
- `report`: the scan table, size highlights, selection labels and totals.
- `clean`: what cleaning a category works on, and the running totals.
- `run`: a cleaning run over the files of the file system, tying each
  step's plan to the files it removes, and the order of the steps to nothing.
- `sysinfo`: distribution name, kernel release, uptime and disk usage lines.
- `text`: the string operations these rely on, each with its specification.

`app/main.rs` is the terminal program: it reads the file system and the
commands' output, asks the user, performs the planned deletions and prints.
