# dropbox_backup_to_external_disk

One-way backup of a Dropbox account to an external disk, and from that disk to a
second one. The program keeps tab-separated lists of files (`path`, `modified`,
`size`) in `temp_data/`, compares the remote list with the local one, and from the
comparison downloads, moves to a trash folder, renames or corrects file times.

Layout:

- `src/` is the verified library (Verus): splitting texts into lines and fields, the
  case-insensitive order of paths, sorting, the comparison of two sorted lists, the
  merge of downloaded files into the local list, the trash plan, the search for moved
  files, and the text of list lines and terminal sequences. The main laws are proved in
  `src/compare.rs` (`law_sync_plan_of_sorted_lists`, `law_sync_plan_of_same_list`) and
  `src/merge.rs` (`law_merge_downloaded_of_sorted_lists`) and `src/sync.rs`
  (`law_sync_brings_local_up_to_date`). Where the program waits on the disk or on
  Dropbox, the library decides the next step (`move_step`, `download_step`).
- `app/` is the program: files, Dropbox requests, threads and the terminal.
- `tests/` runs the library on concrete lists.
