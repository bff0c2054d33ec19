# wenku8

The logic of an Aidoku source for the Wenku8 light-novel site, verified with
Verus.

- `src/` is the library. Every decision of the source is a function there with
  a contract over `Seq<char>` views:
  - `text`: trimming, searching, splitting, replacing, digits (character level);
  - `site`: selected site, URLs, login cookies and where they may be sent;
  - `resolve`: resolution of links against the page they were found on;
  - `encoding`: GBK search keys (through `encoding_rs`), percent-encoding,
    decoding of response bodies;
  - `response`: HTTP status and page checks;
  - `parse`: book keys, first usable texts, labels, author, description;
  - `search`: list-page requests, search results, next-page detection;
  - `details`: book details, chapter index, chapter text.
- `app/` is the Aidoku source itself: it talks to the host (settings, network,
  HTML selection) and hands plain values to the library.
- `tests/` runs the library on concrete pages' values.
