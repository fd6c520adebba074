# dualcut

A video editor whose documents people and agents edit together: a window for
the one, a JSON document behind an HTTP API for the other.

`src/` is the library, written in Verus. Every function states what it returns
and is proved to do so; functions named `law_...` state what holds of the
library as a whole.

- documents: `document`, `docfile`, `format`, `tree`, `json`, `pieces`, `numbers`,
  `text`, `textmap`, `words`, `views`, `fixed`
- what makes a document valid: `validate`, `faults`, `cycles`, `integrity`
- edits: `timeline`, `edit`, `split`, `desilence`, `ids`, `counts`, `spots`,
  `medialib`, `subtitles`, `sceneform`, `inspector`, `drag`, `snap`, `laws`
- from a document to a timeline: `plan`, `compile`, `nesting`, `substitute`,
  `adjust`, `ramp`, `curves`, `effects`, `resolve`
- pictures and sound: `shapes`, `raster`, `color`, `waveform`, `silence`,
  `captions`, `karaoke`, `whisper`, `cache`, `previews`, `catalog`, `templates`
- the session: `history`, `player`, `keys`, `bindings`, `prefs`, `skills`,
  `strip`, `cliplist`, `coords`, `export`, `render`
- the agent API: `api`, `answers`, `messages`, `error`

Times, positions and factors are whole billionths, so that arithmetic is exact.

What is not proved is marked: the few functions that call `serde_json`, `url`
and the standard library carry `#[verifier::external_body]` or
`assume_specification`, with a note of what is taken for granted.

`tests/` runs the library. `app/` is the program around it: GTK, GStreamer,
files and the network.
