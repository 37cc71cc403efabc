# File System Stats

A tool that shows where large amounts of storage are being used: it scans a
directory tree and shows the directories ordered by the size of their contents,
the space taken by each type of file, and the progress of the scan.

A treemap of file sizes is planned but not complete: the order in which areas are
divided, the marking of files and the filling of pixels are there, but no marks
are made room for and nothing draws the picture yet.

* `src/` is the verified library: building the tree while directories are read,
  the totals it keeps, editing, sorting and searching it, what of it is shown, and
  in what order a treemap is laid out.
* `tests/` runs the library.
* `app/` is the program around it: reading directories, the windows, and the
  geometry in floating point.

A directory that a scan finds also counts its own size as reported by the file
system; the directory that the scan starts from counts the files below it only.
Recalculating a list gives every directory the files below it only.
