# co2

Interactive terminal report of AWS Carbon Footprint data: monthly emissions by region and
service, read from the AWS Sustainability API or from the JSON that the AWS CLI prints.

The library (`src/`) is verified with Verus:

- `calendar`: the proleptic Gregorian calendar as arithmetic (first second of a month, month
  lengths, ordering of months).
- `period`: `YearMonth` values: parsing `YYYY` / `YYYY-MM`, their text, their Unix-time bounds.
- `text`: decimal rendering, integer literals, and byte order of strings.
- `aws`: emissions records, reading the CLI's JSON output and the API's results into them, the
  query window and the paging of a query.
- `grouping`, `ranking`, `summary`: grouping records by key, ranking totals, the report title
  and cell texts.
- `display`: the report's key handling and scroll state, and the heatmap's layout.

`app/` is the program around it: command line, file and network access, the terminal user
interface, and everything that computes with floating-point emissions values.
