# om2nc

Fetch Open-Meteo open-data spatial forecasts (`.om` files on
`s3://openmeteo/data_spatial/`) and write them as CF-compliant NetCDF-4: one
file per model run, cropped to a bounding box.

`src/` is a library in which every decision of the program is stated in a
contract and proved by Verus. `app/` is the program around it: arguments,
network, files, and everything in floating point.

| Module | What it decides |
| --- | --- |
| `session` | a whole fetch, from action to event to action: everything is checked before the output is created, and the output gets its name only when it is complete |
| `fetch` | resolving a request, checking files and times, choosing variables, combining slabs |
| `plan` | which native files feed each requested step, and what interval they cover |
| `meta`, `timefmt`, `calendar` | the status files of a model, times and object keys |
| `steps` | step specifications such as `0..144:3` |
| `nc`, `cf` | the layout of the output file and its CF metadata |
| `om` | the tree of a step file |
| `store` | the block cache through which an object is read |
| `grid`, `gaussian` | regular and octahedral reduced Gaussian grids |
| `cli` | command-line arguments, and the text of the `models` and `info` commands |
| `number`, `binary64`, `shortest`, `bignum`, `roundtrip` | hours and minutes in double-precision arithmetic, in integers |
| `text`, `names`, `order` | text, the order of names, sorted lists |

Each fact that is taken on trust stands in a function marked
`#[verifier::external_body]` or in an `assume_specification`, with a comment
that says what is claimed: of `chrono` in `timefmt`, of `bytes` in `store`, and
of the standard library in `text`.
