# jj-sync-prs

Keeps a stack of jujutsu branches and the GitHub pull requests made from them in step: every branch
gets a pull request into the branch that it is stacked on, and every pull request of a stack gets a
list of the whole stack at the end of its description.

- `src/` is the library, verified with Verus. It decides; it does not do anything itself.
  - `text`, `links`: characters, lines, words, numbers, and links between numbers.
  - `graph`, `stack`: which branch is stacked on which, and the walk over a stack.
  - `branches`, `branch_graph`: finding the branch at the root, and building the graph from what `jj`
    prints.
  - `draft`: the text that is edited for a new pull request, and what is read from it.
  - `github`, `comment`: pull requests, and the comments in their descriptions.
  - `pull_request`: finding or creating one pull request, step by step.
  - `sync`, `session`: what a sync visits, and the sync as a whole.
  - `command`, `error`, `repo`: the commands to run, what can go wrong, and the repository.
- `app/` runs the commands, talks to the user and to GitHub, and hands the library what came back.
- `tests/` are the library's tests.

Proof functions whose names start with `law_` state what holds of the library as a whole: that a stack
is visited completely and from the bottom up, that a pull request is only created when the user says
so, that a new comment takes the place of the old one, that nothing below the marked line is read from
the editor, that a sync leaves other pull requests alone, and that a second sync has nothing to do if
no branch is stacked on two others, the user refused nothing and GitHub did as it was asked.
