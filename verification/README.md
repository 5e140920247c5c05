# asteroidtracker

A web page that lists the near-earth objects of the coming week from the
NASA NeoWs feed, in a table that sorts by any column, over a WebGL starfield.

- `src/` is the library, verified with Verus: the feed's dates and request
  address, the check of the answer, the assembly of the week's objects in
  order of closest approach, the per-day cache, the step function that
  decides each move of a fetch, and the table's cells, sorting state and
  stable sort.
- `app/` is the Leptos application around it: the server function that
  reads the clock and the environment, runs the fetch loop (performing
  each action the step function chooses and handing back what happened), the
  conversion of the JSON answer, the pages and components, and the WebGL
  background. Floating-point readings (rounding, parsing, two-decimal
  formatting) are made there and handed to the library as text and as
  integers ordered as the values are.
- `tests/` runs the library on concrete values.
