# torah

A reader for the Torah: parsing references such as `Genesis 1:1`, `Exodus 3:1-5`
or `Deut 6:4-9`, looking up books by name or abbreviation, and reading the answers
of the bolls.life verse service. The library in `src/` is verified with Verus;
`app/` holds the terminal drawing, the HTTP client and the command-line parser.

Modules of the library:

- `text`: whitespace trimming, decimal notation, `u32` reading, UTF-8 widths.
- `unicode`: std's case mappings and letter test, as trusted wrappers.
- `books`: the table of books and `normalize_book`.
- `reference`: `parse`, `display` and the laws that tie them together.
- `html`: `clean_html`, which strips markup and Strong's numbers.
- `json`: the members of a JSON answer that the logic reads (serde_json behind wrappers).
- `bolls`: the service's URLs and the reading of its answers.
- `resolver`: answers from the bundled text, which holds the TORAH translation.
- `banner`, `types`, `cli`: the banner animation state, verse values, command line.
