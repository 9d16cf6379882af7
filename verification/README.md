# tacet

Audio fingerprinting and black-frame credits detection for episodic media, with
its decisions verified in [Verus](https://github.com/verus-lang/verus).

`src/` is the library. It holds everything that decides something: peak picking
and constellation hashing, reference bootstrap, offset-histogram matching,
boundary snapping, the black-frame fallback, decoding plans, the storage layout
and the file-name rules of the command line. Every function in it carries a
contract that Verus proves, and the `law_*` proof functions state what holds of
several of them together.

`app/` is the program around it: decoders, transforms, subprocesses, SQLite,
HTTP and argument parsing.

## Units

Times are whole nanoseconds in an `i64`, the length of a frame is a number of
samples at a rate, so that frame times do not drift, shares are exact fractions, levels are
millionths of a decibel, and spectral magnitudes are the bit patterns of
single-precision numbers. `app/` converts at its edges.

## Modules

| Module | Subject |
|---|---|
| `fingerprint` | spectral peaks, constellation hashes, fingerprints |
| `matching` | reference bootstrap, offset histogram, longest run, best match |
| `boundary` | snapping a span to energy transitions |
| `blackframe` | the scan of the tail of a file and its log |
| `audio` | which part of which track to decode, and by which decoder; the `ffmpeg` command lines |
| `detection` | adaptive bootstrap, episodes and seasons, the fallback, what is kept |
| `storage` | names of files and directories, marker rows, saved references |
| `cli` | episode discovery, episode numbers, comma-separated output |
| `api` | decisions of the HTTP service |
| `text`, `decimal`, `scientific`, `time` | strings, decimals and nanosecond arithmetic |

The one assumption about the standard library that is not already made by
Verus's own library is that `String::push` appends a character.
