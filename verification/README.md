# rinha_rust

A low-latency fraud-scoring service: an HTTP/1.1 endpoint that turns a transaction
payload into a quantized vector and answers with the fraud share among its five nearest
reference vectors, found in a partitioned tree of bounding boxes.

The library under `src/` is written in Verus and carries its contracts and proofs:

- `http` frames requests (request line, `Content-Length`, early refusal of unknown routes
  and oversized bodies, `Connection: close`), with the grammar stated as spec functions;
  `lemma_framing_ignores_what_follows` shows that what follows a framed (or refused)
  request never changes how it is framed.
- `service` routes a request (`dispatch`), picks the fixed response for a fraud count,
  decides the next step of a connection (`connection_step`, over a 2048-byte buffer), and
  builds the warm-up queries and requests. `run` follows a connection step after step:
  `lemma_pipelined_requests` shows that requests sent back to back are answered in order,
  each as it frames alone, and `lemma_run_stops` that nothing after a refused request or a
  `Connection: close` request is handled.
- `vector` reads the payload fields with the two single-pass scanners (the merchant's id
  is the first `"id"` after the `"merchant"` key) and, failing both, from the JSON
  document `serde_json` parses.
- `index` holds the `RNSPCST2` image writer and reader (46-byte header with the scale,
  the dimensions, the counts and the seven partition cuts). `open` accepts exactly the
  images whose layout is sound; a link that names no later node is read as a link to an
  empty leaf, so the searches stay in bounds and terminate on any image.
  `lemma_writer_image_reads_back` shows that the writer's header has a sound layout and
  reads back as written. Besides the reader, the module holds the partition key, the
  best-K list, and the searches. The exact mode is a brute-force scan of the references
  that the leaves hold (padding lanes are never candidates), and its result is stated
  exactly (`exact_count`). `index::exactness` proves that the partitioned searches return
  the same count whenever every leaf belongs to exactly one partition tree, every box
  holds the references under it and no tree is deeper than the walk's stack
  (`search_sound`), and the K-th and next nearest references lie at different distances
  (or equally distant references share their labels).
- `balance` holds the load balancer's choices: the socket list and the round-robin order.

`app/` is the program around it: the API process (index loading, warm-up, TCP and
descriptor-passing servers, the floating-point quantization of the payload fields) and the
load balancer (`lb`), both on plain sockets.

`tests/` exercises the library on concrete values.
