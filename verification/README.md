# Weetbeats

A beat maker. This crate is its engine room: everything a beat is, and everything that decides
when it sounds, with contracts that say what its functions do and a proof that each keeps to its
own. Nothing is claimed of the readings in `shared`, which other threads write.

- `src/` is the library. Nothing in it reads a file, opens a device, or does arithmetic on
  sound; it says what is to be done and is told how it went. Verus checks all of it.
- `app/` is the program around it: the window, the audio device, the disk, and the mixing,
  which is floating point.
- `tests/` runs the library, with a mixer and a disk of its own.

## What is in the library

| module | what it is |
| --- | --- |
| `lane`, `pattern`, `placement`, `project` | what a project holds, and the edits to it |
| `commands`, `arriving` | everything that can be asked for, and what is answered |
| `telling` | what the audio thread is told of a project |
| `history` | undo and redo |
| `folder`, `paths`, `browser`, `walking` | what a project is called on disk, and finding sounds |
| `command`, `shared` | the queues and the readings between the two threads |
| `clock`, `score`, `voice`, `playing`, `engine` | the audio thread |
| `sample`, `wav` | sounds, and the files they are written to |
| `single`, `bits`, `seqs`, `text`, `spelling` | what the rest is built from |

## What is proved

Besides each function's own contract, what holds of them together is stated as a proof function
whose name says it:

- `drawing`, `arranging`, `mending`: a pattern, a song and a project stay tidy whatever is done
  to them. A pattern never plays over itself, a block is found all along its length, what cannot
  be moved stays where it was, and putting an old project right moves nothing.
- `clock`: the clock does not drift, however the frames are cut up.
- `voice`: a fade never jumps, a held note is let go on time, the oldest voice is the one stolen.
- `performing`: a pattern sounds exactly where its blocks are, what is played is what is drawn,
  solo beats mute, a jump lands every pattern where it would have been.
- `returning`: the audio thread lets go of no sample. Every one that a command brings, or that a
  track, a voice or a note waiting for one is done with, is handed back. Should the queue back be
  full the sample is dropped there and then and counted; the app's cache mostly holds another
  reference to it. What has been handed over is what was returned and what was lost, together.
- `mirroring`, `following`, `reflecting`: the engine holds what the project holds, once it has
  been told it and through every edit, with four exceptions: a new track in a slot that a pattern
  has notes for, a block asked for that the song does not take, a note rubbed out further along
  than sixteen bits can say, and a tempo that is not a number.
- `browser`, `walking`: a walk lists the sounds in the tree of folders below the one that was
  picked, each once, and is cut short only when there are more than there is room for.
- `history`: undo gives back what was, and a drag is one step.

## What is taken on trust

Four things are called that are not part of the library, each behind a declaration that says what
is claimed of it: the two ends of an `rtrb` ring buffer, `Arc::clone`, `String::push` and
`str::to_lowercase`.
