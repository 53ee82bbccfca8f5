# descargador

A verified library for a desktop front end of yt-dlp.

- `src/` holds what the program decides: which tools are taken, how yt-dlp is called, what its
  output means, how the queue of downloads goes on, and how a page is scanned for links. Its
  contracts are proved with Verus, except those of the few functions that call another crate or the
  standard library: these are trusted, and say so.
- `tests/` runs the library on concrete values.
- `app/` holds the program around it: the commands of the window, processes, files and requests.

The trusted functions stand in the module that needs them: JSON documents (`json`), web addresses
(`address`), regular expressions (`harvest`), pages (`html`), the Unicode tables (`unicode`) and
`String::push` (`text`). Each names the function that it calls and what is claimed of it.
