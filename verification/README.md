# engram

A memory service that is also a code knowledge base for coding agents. Documents are chunked,
embedded and committed; searches rank chunks and documents; a background pipeline folds what was
stored into trees of summaries; an indexer sends the files and the history of a git repository; and a
small set of tools makes all of it available to an agent.

The logic is a library, verified with [Verus](https://github.com/verus-lang/verus): every public
function under `src/` has a contract, and the contracts are proved. What is trusted is stated where it
stands: the items marked `external_body` or `assume_specification`, which make or describe calls into
an outside crate or the standard library. What talks to the outside, that is the HTTP
server and clients, SQLite, git, the file system, floating point, stands in `app/`.

## The library

| Module | What it is about |
|--------|------------------|
| `text`, `table` | texts as sequences of characters; tables as sequences of rows: selecting, rewriting, sorting |
| `pattern`, `json`, `syntax` | regular expressions, JSON and syntax trees, through the crates that provide them |
| `model` | documents, taints, edges of the code graph, errors |
| `chunking`, `treesit` | cutting prose and code into chunks |
| `graph`, `graph_query` | the edges of the code graph, and walks over them |
| `ingest` | from a document to its chunks, entities and edges, and the atomic commit |
| `store` | the tables: documents, chunks, mentions, jobs, tree nodes, links, edges |
| `embed`, `llm` | what embeds and what summarises |
| `jobs`, `tree` | the queue, and the consolidation into trees |
| `retrieve` | search over documents and code, recall, drilling into trees |
| `conventions` | the digests of a repository |
| `api` | what the service answers |
| `vault` | the markdown mirror |
| `index` | the indexer: what is indexed, how changes are worked off, the requests |
| `mcp` | the tools: decoding calls, formatting results |
| `config` | the settings |

Functions named `law_...` state what holds of the library as a whole, such as that a commit replaces
all that was stored of a document, that a job that keeps failing is given up at the cap and not
before, or that a page of the mirror is not written again while its content is the same.

Scores are computed on floats, which the library leaves to an implementation of
`retrieve::Scorer`; it holds them as bits, and compares them as the numbers that they stand for.

## The programs

`app/` holds one program that acts by the name under which it is called: `engram-index` indexes a
repository, `engram-mcp` serves the tools over stdio or HTTP, and any other name runs the service. All
settings are environment variables; an unparseable value counts as absent.

The store lives in memory. The service reads it from SQLite at the start and writes each change back
in one transaction. Work that asks the model or the embedder is rehearsed on a copy of the store, so
that the store is free while they are asked, and then done with their answers.
