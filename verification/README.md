# unison-fsmonitor

The monitor that `unison -repeat watch` talks to: it has directories watched and
tells the synchroniser which paths have changed.

The library under `src/` is written in Verus. It holds the rules, and does no
input or output:

- `protocol`: lines, words and percent-encoding
- `path`, `prefix`, `path_set`: paths by their components, in the syntax of Unix
  or of Windows
- `replica`, `monitor`: the commands, and the changes in the file system
- `watchman`: what a Watchman subscription amounts to, and which ones are needed
- `model`: what the monitor does, as functions on mathematical states
- `validity`, `laws`, `history`: what holds of every state, of several steps
  together, and of all that is reached from the beginning
- `fields`: splitting at separators

A step of the monitor holds the lines to write and what has to be done next:
watch a path, end the watching of one, or find the real path behind a link. The
program under `app/` does these things, with `notify` or with a Watchman server,
and hands back what came of them.

## Paths

A path is bytes and a syntax. In the syntax of Unix `/` alone separates
components. In that of Windows `\` does too, and a path can begin with a prefix:
a drive, a share, a device, or one of the verbatim forms that begin with `\\?\`.
The program hands the library the syntax of the system that it runs on.

Some laws on joining and stripping paths hold only where a path, put behind
another one, is read as it stands. In the syntax of Unix this is always so. In
that of Windows `fits` in `path` says when: `C:x`, for one, is a name behind `a\`
in `a\C:x`, and a drive when it stands alone.
