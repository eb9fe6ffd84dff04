# lumen

The verified core of Lumen, a desktop downloader for music and video with
PDF and audio-tag tools. The library (`src/`) is written in Verus: every
public function carries a contract, and Verus proves the code against it.

- `chars`: character classes, trimming, replacing, splitting and joining
  text, decimal numbers; the specifications the other modules build on.
- `text_utils`: file-name sanitising, cleaning of video titles, output-name
  templates.
- `queue`: the download queue (order, statuses, which jobs start) and
  playlist URLs.
- `pdf`: line wrapping and page layout of text documents, page rotation,
  names and ranges of the PDF tools.
- `pdf_text`: what text export keeps of the text lopdf extracts, refusing
  documents without text.
- `recents`: the home screen's list of recent entries, newest first.
- `audio_tags`: what the tag editor shows and what saving writes.
- `thumbnail`: decoding and scaling video thumbnails (with `image`).
- `games`, `convert`, `paths`: formats GTA V plays, the conversion route of a
  file, the data folder.

`app/` is the program around it: files, network, the PDF engine and the
Tokio runtime. `tests/` runs the library on concrete values.
