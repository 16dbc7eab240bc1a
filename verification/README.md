# nix-compute

Contracts of reproducible compute tasks, verified with Verus. The library decides what a job,
a target, a device inventory, a signed report and a group of nodes must satisfy, and what is
handed to the programs that run them. It does no input or output of its own.

- `src/` is the library. Every function has a contract over mathematical models: text is a
  sequence of characters, an error is the sequence of its messages, a document is a tree.
  Laws that relate several functions are public proof functions whose names begin with `law_`.
- `tests/` runs the library, and the calls into other crates behind it.
- `app/` is the command line: files, processes, containers, Nix, the network and the shared
  directory of a group.

| Module | Decides |
| --- | --- |
| `model`, `selection`, `nix` | what may be declared, which target is meant, what Nix is asked |
| `accelerator`, `version`, `host` | which devices and hosts fit, how devices are handed out |
| `runtime`, `process`, `course` | how a workload is started, what it comes to, in which order |
| `inputs`, `outputs`, `cas` | what may be read and published, and under which names |
| `group`, `node`, `rendezvous` | when the nodes of a run go on together, or stop together |
| `store`, `task`, `report` | what identifies a task and a run, and what is signed when |
| `attestation`, `canonical`, `encoding`, `reading` | signatures and the documents under them |
| `text`, `path`, `map`, `sort`, `json`, `error` | the values that all the others are made of |
