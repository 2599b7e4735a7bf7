# TraceText

TraceText looks text queries up in PDF and DOCX documents and traces every match back to its page
and to the boxes of the matched characters. `src/` is the library, verified with Verus; `app/` is
the desktop program around it.

## What is proved

- Text that stands verbatim in a document is found when it is searched for, and scores 98 or 100;
  it scores 100 exactly where the highlighted text is the query, letter for letter.
- What was matched exactly is not matched again by resemblance: matches share no characters.
- Matches by resemblance score between 50 and 95. Scores are single-precision numbers, and every
  operation on them is correctly rounded. A text scores 95 against itself, as long as it has words
  and no more than `2^24` of them.
- The three parts of a match, put together, are the text of the document. The highlighted part
  holds the match, unless the match begins or ends with the space that stands for a separator.
  Every matched character lies in one of the boxes that are drawn, as far as the corners of the
  boxes are numbers. The boxes are those around the runs of characters on one line of one page.
- Queries that normalize to the same text find the same stretches of the document.
- Normalized text has no white space but single spaces, no combining marks and no punctuation, and
  normalizing ASCII text a second time changes nothing. For other text both hold as far as the
  Unicode tables settle: what they make of a character they leave alone.
- Every query gets at least one row, in the order of the queries; exactly the matches that reach
  the threshold are shown. The rows name pages of the document, which are numbered from one.
- The page cache holds the pages that were used last, as many as it has room for.

What is believed without proof is declared in `src/bridge.rs`: the Unicode tables of the standard
library, Unicode decomposition, the string similarity measures, compact strings, parallel
evaluation and paths.

## Layout

- `src/` – the library; `src/lib.rs` lists the modules.
- `tests/` – tests of the library, many of them against the machine's own floating point.
- `app/` – window, files, clipboard, Excel files and PDF rendering.
