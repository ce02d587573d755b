# gc_email_validator

Classifies the domain of an email address against an embedded, reviewed
Government of Canada domain dataset, without DNS or network access.

- `src/` is the verified library:
  - `text`: character classes and sequence operations (trimming, searching,
    lowercase, lexicographic order, decimal formatting);
  - `email`: address syntax and domain validation, and extraction of the
    lowercase ASCII domain;
  - `dataset`: the embedded namespace roots and rules, proved sorted;
  - `classify`: binary search of the rules, namespace membership and the
    classification; `laws` states what holds of every classification;
  - `http` and `cli`: the routing decisions of the HTTP handler and the
    command-line parser;
  - `compiler`: the dataset compiler (CSV tables read from the checked
    bytes, policy, aliases, rule set, rendering of the generated source,
    SHA-256 checks and the dataset version), with its own `laws`;
  - `external`: the calls into `idna`, `url`, `sha2`, `csv` and two std
    functions.
- `app/` holds the programs: the command-line classifier, the AWS Lambda
  handler and the compiler's file handling, with the JSON forms of the types.
- `tests/` exercises the library.
