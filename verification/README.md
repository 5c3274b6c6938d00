# video_tagger

A tool for labelling a folder of videos: each video is renamed to
`[identifier]number[★][label]...name.ext`, the folder's progress and the tag
library are kept as JSON, and a local multimodal model (a llama.cpp server on
port 7080) can propose labels and a score from screenshots and audio clips.

The library in `src/` is verified with Verus; `app/` is the command-line front
end around it (files, ffmpeg, HTTP, JSON parsing and printing).

## Library modules

- `text`, `json`, `assoc`: character sequences, JSON values as the library reads
  them, association lists.
- `natord`: natural order of names (digit runs compared as numbers).
- `config`: file names of labelled videos (`format_video_name`,
  `parse_video_name`), digit counts, file-name sanitising.
- `paths`: where the application keeps its files, name conflicts.
- `progress`: the renaming progress of a folder, read back from its file names.
- `scanner`, `overview`: which files are videos, their order, the overview's
  search and sort.
- `tags`: the tag library (add, remove, usage counts).
- `cache`: the screenshot cache with its least-recently-used eviction.
- `session`: the labelling screen (categories, labels, undo and redo, keys).
- `thumbs`, `loader`: the overview's thumbnail queue and the screenshot loading
  state of the labelling screen.
- `audio`: the state of audio clip playback.
- `media`: the duration field of ffmpeg's report.
- `batch`: an AI run over a folder (confirmation, automatic acceptance, failures, summary).
- `ai`: the AI settings and the model's answers (checking, scoring, streaming,
  retries, sampling batches).

## Command line

```
video_tagger scan <folder> [search] [--sort name|date|size]
video_tagger sort <folder>
video_tagger label <folder> <number> [--star] [--overwrite] [label ...]
video_tagger shots <folder> <number> [start-seconds]
video_tagger thumbs <folder>
video_tagger tags [add <name> | remove <name>]
video_tagger ai <folder> <number> [--settings <file>] [--timeout <seconds>] [--accept]
video_tagger ai-all <folder> [--settings <file>] [--timeout <seconds>] [--auto]
```
