# patch_stream

A subscriber posts a prompt as `{"prompt":"..."}` and gets back a stream of lines. Each line is one
patch of a page, in JSON. The page is made by a script, which runs in an embedded JavaScript engine
and makes HTTP requests of its own.

`src/` is the verified library: what is decided and computed on the way.

- `prompt`: the prompt in the body of a request, and how the request is answered
- `queue`: the queues of response chunks and of patches, and who is to be woken when
- `request`: the steps that build an HTTP request, the errors they end in, and the status
- `response`: the body of a response, cut into chunks at line feeds, and the task that delivers them
- `generate`: the steps of a run, the key that the script gets, and the lines of the stream
- `bundle`: the module that the script's bundle starts at
- `json`: JSON strings and documents, through `serde_json`
- `text`: decimal numbers, splitting, case-blind comparison and UTF-8

`tests/` runs the library on concrete values.

`app/` is the two components around it: `consumer`, which subscribers talk to, and `producer`, which
runs the script. They are built for WebAssembly, one at a time, against the WIT packages in
`../wit`: `--cfg component="consumer"` or `--cfg component="producer"` picks which. The producer takes
in `page_runtime.js`, which `bundle` builds for it first. `host` has the signatures of the WIT
packages for builds that are not WebAssembly.
