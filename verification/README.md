# cutlass_captions

Captions for a video editor: timed lines of text that live on the timeline as
ordinary text clips, gathered into caption groups.

`src/` is the library, verified with Verus:

- `caption/` — cue metadata, word timings, groups, layouts, highlights and the
  template catalog.
- `format`, `srt`, `vtt`, `subtitle` — reading and writing SubRip and WebVTT,
  and placing a subtitle file's cues on the timeline; `roundtrip` proves that
  a written file reads back as the cues it was written from.
- `reflow`, `segment`, `timing` — line breaking, word timing estimates, and
  turning recognized words into cues; `cue_shape` proves that segmentation
  keeps every word, in order, within the layout's lines.
- `timeline`, `project`, `edit` — the timeline model and every caption edit,
  with exact contracts; `history` — the undo records and the laws that undoing
  an edit restores the project.
- `gesture` — the editor gestures that add a whole group at once: importing
  a subtitle file, placing a transcription, and a hand-added line, each on a
  text lane with room (or a new one that a refusal takes away again).
- `lanes`, `projection`, `export`, `inspector`, `auto_source`, `progress` —
  the decisions the editor and its caption panels make before an edit is
  applied.
- `wire` — an assistant's caption tools (`add_captions`, cue text, merges,
  splits, templates) checked and lowered into caption edits, or refused with a
  message that names the problem.

`tests/` runs the library on concrete values. `app/` is the shell around it:
JSON tool arguments (and their seconds, turned into ticks), reading a
subtitle file from disk, and the parts of transcription
and progress reporting measured in floating-point seconds.
