# dfi18n

The translation logic of a Dwarf Fortress translation mod, written in Verus and
proved against its contracts.

- `src/` is the verified library: the rule-based translator (`rules`, `ruleset`,
  `replacer`, `designation`, `engine`), character preference paragraphs
  (`preference`), the dictionaries and ruleset translators by language
  (`translator`), translation requests and their keys (`translation`), text blocks,
  screen layers and occupation marks (`text`, `screen`, `visual_block`), the cloud and
  realtime translation state (`cloud`, `realtime`), the per-frame controls
  (`control`), the decisions of the game hooks (`hooks`, `debugger`, `logging`) and
  the matcher tool's answer (`matcher`).
- `app/` holds what touches the file system, the network and the async runtime: it
  reads ruleset and dictionary files, talks to the cloud and chat services, runs the
  realtime loop and the matcher tool's command line, and calls the library for every
  decision.
- `tests/` runs the library on concrete inputs.
