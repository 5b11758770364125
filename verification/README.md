# agentenv

The verified core of guest-memory warm-up for snapshot restores of microVMs.

A template guest is profiled between two pauses: which of its pages were touched.
The pages become a working set in the snapshot's manifest, and a restore faults
them in before the guest resumes. Separately, the first reads of a freshly
captured snapshot are recorded, and a restore warms the page cache from that
record.

- `src/idle_page_tracking/` scans the page table, marks and reads idle bits, sorts
  the pages by what became of them and puts them together to ranges.
- `src/manifest.rs` checks working sets, `src/prefault.rs` plans their use.
- `src/startup_pack/` holds the decisions of recording and of the shared prefetch,
  as state machines that say what to do next.
- `src/ordered.rs` and `src/text.rs` are helpers.
- `app/` performs what the core decides: files, tasks, clocks and locks. What lies
  outside of this crate (the sandboxes, the daemon, the image store, the process's
  capabilities) it reaches through traits.

Trusted without proof are three calls: `sha2::Sha256::digest`,
`u64::from_ne_bytes` and `u64::to_ne_bytes`.
