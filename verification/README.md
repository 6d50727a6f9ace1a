# auto-commit

Writes the message of a commit from the staged change, by asking a language model.
It also suggests names for a branch and ways to squash one.

The crate is the part of the tool that decides, with a proof that it does what its
contracts say:

- `git` reads what git prints, decides which hunks fit in the prompt, and answers the
  model when it asks for the rest.
- `commit`, `branch` and `squash` build the prompts and keep track of the session.
- `model` rebuilds streamed answers and tool calls, round by round.
- `config` puts the layers of the configuration together.
- `output` decides what is shown while the tool runs; `screen`, `picker` and `staged`
  lay out what is on screen.
- `error` names what can end a run.
- `text` and `ordered` are the strings and the ordered map that the rest is written
  with.
- `outside` holds everything that is taken from other crates without proof.

The command line around it is in `app/`: arguments, files, git, the terminal and the
network.
