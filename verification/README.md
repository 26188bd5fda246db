# kafka_broker

The core of a small Kafka broker, verified with Verus. Its server answers
`ApiVersions` requests and refuses every other API key; its endpoint
handlers also answer `DescribeTopicPartitions` and `Produce` requests from
the cluster's topics, which they learn from the KRaft cluster-metadata log.

Layout:

- `src/wire.rs`: the primitive encodings of the wire format (big-endian
  integers, varints, compact strings and arrays) as `spec` functions, and the
  readers that take them apart.
- `src/buffer.rs`, `src/text.rs`: the contracts of the outside calls the
  library makes (`bytes::BytesMut`, `String::from_utf8_lossy`).
- `src/name_map.rs`: a map from names to values in which no name occurs
  twice, held as a list of entries; it stands where a `HashMap<String, _>`
  would, whose contracts in vstd give nothing to prove with for `String`
  keys.
- `src/cluster/`: topics, partitions and the reader of the metadata log.
- `src/endpoints/`, `src/protocol_types/`: request parsers, handlers and
  response encoders.
- `src/server.rs`: what the broker answers to one request, framed.
  `respond` is the broker's server: from the first eight bytes of a request
  it answers `ApiVersions` (listing that one key) and every other API key
  with error 35 and the message `Unsupported API key`, with no tag byte.
  `respond_with_endpoints` answers with the endpoint handlers instead, which
  serve `Produce`, `ApiVersions` and `DescribeTopicPartitions` and read the
  whole v2 request header where they need the body.
- `app/main.rs`: the TCP server around `respond`.
- `tests/`: tests on concrete values.
