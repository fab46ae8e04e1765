# jcode_hashline

Line-anchored patches for files. A read of a file shows its lines with their numbers under a header
`[PATH#TAG]`, where the tag is four hexadecimal digits of a hash of the whole text. A patch repeats
that header and names lines by their numbers instead of quoting them:

    [src/greet.py#1D84]
    PUT 2.=2:
    +    print(f"hi {name}")

A tag that no longer fits the file is refused before anything is written. There are two exceptions,
both with a warning: edits whose lines can all be found again in the live text, and insertions that
go to the head or the tail of the file alone. To delete or merely move a file takes a tag that fits.

`src/` is a Verus library. It holds the patch language, the edits and their application, the
snapshots of what was read, the recovery of stale tags, and the text side of the edit tool. Every
function states in its contract what it returns, over models of texts as sequences of characters.
The `law_*` proof functions state what holds across functions: what each form of a patch does to a
text, what reading back a write gives, what every operation on the snapshot store keeps.

The library touches no file. `app/` reads and writes files, keeps the sessions of the process, and
offers the edit tool to the agent.

What the proofs rest on, besides Verus and its library, are the contracts given to
`xxhash_rust::xxh32::xxh32`, to the diffs of `similar`, to `String::push` and to the `Debug` form of
strings. The tests in `tests/` run each of them.
