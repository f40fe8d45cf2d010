# md-orphan

Finds markdown files that no link reaches from given entry files, and links that are broken,
ambiguous, point at a missing heading, or are not written in canonical form. Links may lead
into other repositories that a global configuration names.

The library under `src/` is verified with [Verus](https://github.com/verus-lang/verus). It
does no input or output: where a crawl needs a canonical path, a file or an index, it says so
and goes on once it has it. The program under `app/` brings these from the disk, stores the
caches and prints what the library tells.

## Modules

| Module | What it states |
|---|---|
| `extract`, `joined` | the links and headings of a markdown text, byte by byte |
| `resolve`, `path`, `text` | where a target leads, and the texts that paths are made of |
| `scene` | what a single link comes to: the file it leads to and the issues with it |
| `crawl` | the crawl as a step function on facts, and its executable state |
| `reachability` | the reached files are the smallest closed set; the issues are those of their links |
| `fix`, `reread`, `rewriting` | rewriting paths in place, reading the text again, and that fixing is done once |
| `reordering` | the order of the issues does not matter to a fix |
| `repeats` | naming an entry file again changes nothing |
| `second_run` | a second run after fixing reaches the same files and has no style note |
| `cache`, `walk_cache` | when stored extractions and indices may be used |
| `discovery`, `exclude`, `glob` | the index of a repository and the patterns that prune it |
| `config`, `report` | the configuration file, and what is told to the user |
| `collections`, `sort`, `ascii`, `encoding` | sets and maps of texts, sorting, byte constants, ASCII in UTF-8 |

Public proof functions named `law_…` state what holds of several functions together.

## What is taken on trust

A few functions of the standard library, `unicode-segmentation` and `serde_json` are called
with contracts that are not proved here: pushing to a string, lossy decoding, lower case,
character classes, grapheme clusters, and parsing JSON. Their results are pinned down for
ASCII text and well-formed UTF-8; beyond that they are named functions of their input. Of
malformed UTF-8, the ASCII characters are known to stay.
