# mirror-v3

Exactly-once mirroring of Kafka partitions to Kafka, to a directory or to an
S3 bucket, with the rules that make it exactly-once proved in Verus.

A mirror reads one partition of a topic and hands every record to its
destinations at exactly its own offset. Where a mirror resumes is read from the
destinations, never from a local checkpoint: a stored batch carries the range of
its offsets in its name, and a Kafka destination carries it in its end offset.

## Layout

- `src/` is the verified library.
  - `run_loop`, `mirror`: the mirror loop as a step machine, and a driver over
    sources, sinks and notifiers.
  - `tee`: several sinks behind one source, each with its own position.
  - `naming`, `chain`, `chain_laws`: names of batches, and what a listing of
    them says about where to resume.
  - `filesystem`, `snapshot`, `schedule`: collecting records, storing them as
    batches or as snapshots of the latest values, and when.
  - `restart_laws`: what a restart finds, whatever a sink did before.
  - `envelope`, `ndjson`, `parquet`, `column`: batches as bytes and back.
  - `cache`, `http`: the latest value of every key, and the answers to readers.
  - `acks`, `kafka`, `supervisor`: what is committed at the source, what is
    checked at a broker, and what a process makes of its configuration.
  - `config`, `envsubst`, `validate`: the configuration and its rules.
  - `mock`, `testing`: scripted sources, sinks and notifiers.
  - `json`, `base64`, `utf8`, `url`, `index_map`, `arrow_table`: the calls into
    other crates. Their contracts are believed, not proved, and say so.
- `tests/` runs the library, with those crates linked.
- `app/` is the program around it: brokers, files, buckets, HTTP and signals.

Functions named `law_..` are theorems about several functions at once: that no
offset is written twice or skipped, that a restart resumes where the last flush
ended, that reading a batch gives back what was written.
