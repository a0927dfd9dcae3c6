# ironclad_agent

The agent runtime's decision logic, written in Verus and verified: every
public function in `src/` carries a contract that Verus proves, and the
laws the library promises stand as public proof functions next to the code
they speak of.

## What is verified (`src/`)

- **Reasoning loop** (`agent_loop`): the ReAct state machine, its turn cap,
  idle and repeated-call detection, with laws over whole action sequences.
- **Context and prompts** (`context`, `prompt`, `retrieval`, `memory`,
  `digest`): context assembly within the token budget, trimming and
  progressive compaction, chunking (chunks cover the text and respect the
  size bound), HMAC trust boundaries (inject, verify, strip, and their round
  trips), system prompts and instruction reminders, memory sections, turn
  ingestion plans and session digests.
- **Safety** (`injection`, `policy`, `approvals`): injection scoring inputs
  and decoding, the policy rules (authority, command safety, path protection
  with `/tmp` confinement by path components, rate limiting, validation), and
  the approval workflow.
- **Skills and learning** (`skills`, `learning`, `manifest`, `script_runner`):
  skill matching, learned-skill synthesis, the learning flow as a step
  function, manifest loading and hot reload, interpreter selection and the
  script sandbox profile.
- **Knowledge and notes** (`knowledge`, `obsidian`, `ingest`): vault indexing,
  wikilinks, tags, searches and filters, note files, and document ingestion
  plans.
- **Agents and services** (`orchestration`, `spawning`, `discovery`, `device`,
  `services`, `mcp`, `governor`, `recommendations`): workflows, child agents,
  discovery, device pairing, paid services, MCP exposure, session
  maintenance and recommendation ordering. Every registry keyed by name or
  id (agents, devices, approvals, workflows, services, MCP tools and
  connections, notes, rate-limit entries) keeps its keys distinct: an entry
  under a key already present is replaced, or the addition refused.

Calls into outside crates (hashing, HMAC, regular expressions, Unicode
normalization, key generation, UUIDs, URL encoding, the clock and the file
system) go through small trusted wrappers whose contracts state what the
crates' sources show; randomness and the clock are stated as outcomes that
may fail or vary.

## What stays outside (`app/`)

File and process I/O, async plumbing, the policy engine over boxed rules,
floating-point scoring and budgets, serde forms of the library's types, and
the stores (database, files) that the verified decisions drive. PDF text
extraction is not available in this build.

## Layout

- `src/` — the verified library (crate `ironclad_agent`).
- `tests/` — tests run against the library.
- `app/` — the unverified code around it.
