# Robin

A tiny web browser engine: HTML and CSS in, pixels out.

- `src/` is the library, written in Verus and verified: the HTML tokenizer and
  tree builder (`html`), the DOM (`dom`), the CSS parser (`css`), the cascade
  (`style`), the box tree (`layout`), the choice of colours and font faces
  (`paint`, `text`), the pixel canvas with alpha blending (`render`), window
  scrolling (`window`) and the decisions around fetching pages and linked
  stylesheets (`net`). Each public function's contract is stated over a
  mathematical model of its data; the laws of the library (the parsed
  document is one `<html>` element, void elements stay empty, class names hold
  no white space, selectors come most specific first, inline styles beat
  selectors, the most specific rule wins, the box tree nests correctly, ...)
  are proof functions.
- `app/` is the command-line front end: argument handling, HTTP and file
  access, floating-point layout and painting, font rasterization, PNG output
  and the interactive window.
- `tests/` exercises the library on concrete inputs.

```sh
robin <URL|FILE> [--png out.png | --window | --dump-dom | --dump-layout] [--width PX]
```
