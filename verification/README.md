# fraud_api

A server that scores card transactions for fraud. A transaction is turned into a vector, the
nearest reference transactions are looked up in an index of two levels, and their labels decide
the score. A load balancer hands connections over to several servers, and an indexer builds the
artifacts that the servers map into memory.

The library in `src/` is written and verified with Verus. `app/` holds the programs around it:
sockets, files, JSON input of the indexer, and everything that computes with real numbers.

| Module | What it holds |
| --- | --- |
| `bytes` | forward search in byte strings |
| `http_parser` | where a request ends and what it asks for |
| `json_lexer`, `json_parser` | the payload of a scoring request |
| `json_text` | the JSON texts of a request and what they mean |
| `timestamp` | hours, weekdays and minutes |
| `vectorizer` | the features of a transaction and their places in its vector |
| `lookups` | the risks of merchants, and known transactions to hold answers against |
| `records` | the binary format of records, centroids and offsets |
| `top_k`, `knn` | the nearest neighbours and the search of the index |
| `scoring`, `response` | how a request is answered |
| `connection` | buffers and states of a connection |
| `balancer` | turns, queues and handing over |
| `random`, `kmeans`, `layout`, `indexer`, `flat` | building an index |
| `tuning` | judging scores against records that were set apart |
| `input` | plain or compressed input |
| `logging` | lines of the log |

Real numbers are held as bit patterns in the library. Bit patterns of numbers that are not
negative are ordered as the numbers are, which is all that searching and sorting need. The
arithmetic comes in as functions: how a feature is scaled, the distance of two vectors, the
score of neighbours.

A request whose numbers are out of range, and an index that does not fit its records, have
outcomes of their own (`OutOfRange`, `None`, `Stop`); the programs stop there.

The programs are built with two tables in the environment: `MCC_RISK_JSON` holds the text of
`resources/mcc_risk.json` and `NORMALIZATION_JSON` that of `resources/normalization.json`. With
`VERBOSE_LOGGING` set as well, they write lines to the log.
