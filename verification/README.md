# siglus_chs2cht

Converts the Simplified Chinese text of SiglusEngine games to Traditional
Chinese with Taiwan usage (the OpenCC `s2twp` chain: phrases and characters,
Taiwan phrases, Taiwan variants), verified with Verus.

## Layout

- `src/` — the verified library.
  - `dict.rs`: one phrase table (`DictPass`): reading a dictionary text and
    forward maximum matching, both specified over `Seq<char>`.
  - `converter.rs`: the three-pass `Converter`.
  - `script.rs`: the string table of a scene script (`.ss`): reading the
    texts that hold CJK characters, and rebuilding the script with new texts.
  - `scene.rs`: the scene pack (`scene.chs`): names, block table, unpacking
    and repacking blocks, the extra 16-byte key layer.
  - `gameexe.rs`: the Gameexe container, its byte order mark, and the
    conversion of quoted values in the settings text.
  - `utf16.rs`, `cipher.rs`, `text.rs`, `bytes.rs`, `chars.rs`: UTF-16LE,
    the string and key XOR layers, white space and trimming, little-endian
    fields and byte helpers.
- `tests/` — tests run against the compiled library.
- `app/` — the command-line program: file I/O and progress output. It calls
  a `crypto` module (the engine's two table-driven XOR layers and its LZSS
  compression) and embeds the OpenCC dictionaries from `dicts/`; neither is
  part of this repository, so `app/` builds only once they are supplied.

The public proof functions state how the operations fit together: rebuilt
scripts and packs read back as written (`lemma_replace_then_read`,
`lemma_pack_then_unpack`), unreplaced strings are kept, out-of-range and
earlier repeated replacements change nothing, encodings and ciphers undo
themselves, no key means the all-zero key, and dictionary tables have
non-empty keys and one-word values (`lemma_parse_dict_ok`).
