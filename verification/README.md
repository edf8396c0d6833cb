# sandbox_policy

Decisions of a command sandbox and of the proxy beside it, verified with Verus.

- `src/fs_approval.rs`: a command asks, in its environment, for filesystem access
  that its policy does not list. The request is held against the ceiling of the
  policy and comes out as normalized grants, or as a refusal.
- `src/policy.rs`: the policy, and what an approval adds to it.
- `src/filter.rs`: hosts are held against the rules of a filter before they are
  looked up, and against the ranges of metadata services after that.
- `src/fs_model.rs`, `src/fs_laws.rs`, `src/filter_laws.rs`, `src/rule_laws.rs`: the
  course of these decisions as state machines, and the laws that hold of them.
- `src/grant.rs`, `src/error.rs`, `src/path.rs`, `src/text.rs`: grants, refusals,
  Unix paths and text.
- `app/`: the disk, the name service and JSON, connected to the decisions. How the
  entries of a filter match hosts, and which addresses belong to metadata services,
  is given by an implementation of the trait `HostRules`.

A decision that needs something from outside is a state with a question; the
answer takes it to the next question or to the end. The laws are proved for
whatever the answers are, and, for a world in which every question has one answer,
the laws say what comes out.

Two functions are trusted: the readings of bytes as UTF-8 in `src/text.rs`.
