# betterjenkins

The controller of a small CI/CD system that runs on Kubernetes. Users upload
YAML task files; the controller records each file as a job with numbered
tasks in PostgreSQL, launches executor jobs on Kubernetes while tasks wait,
and keeps one workspace directory per job in an S3 bucket.

- `src/` is the verified library (Verus): reading upload bodies
  (`upload`), planning the rows of a job (`config`), the decisions of the
  executor and workspace loops (`run`), workspace naming (`workspace`), the
  database address (`db`), and character helpers (`text`).
- `app/` is the program around it: the HTTP server, database, Kubernetes and
  bucket I/O, and the tokio tasks that run the loops.
- `tests/` exercises the library on concrete values.
