# discord-mods-bot

A Discord bot for moderating a server: a tag store, crate and documentation
lookup, running code on the Rust playground, slow mode, kicks, temporary bans,
and a welcome message that hands out the talk role.

The decisions of the bot live in a library verified with Verus (`src/`); the
program around it (`app/`) talks to Discord, the database and the web, and
hands the library plain values.

## Layout

- `src/state_machine.rs`, `src/charset.rs`: the nondeterministic matcher that
  recognises commands; a run records, under each parameter's name, the text
  it reads in that parameter's states, and a message takes the first
  accepting run, edges tried in the order they were added.
- `src/commands.rs`: compiling command patterns such as
  `?tags create {key} value...` into the matcher, and looking up the command
  of a message.
- `src/setup.rs`, `src/command.rs`: the command table for a configuration,
  and the roles stored at start-up.
- `src/command_history.rs`: which response answered which command, so that
  edits and deletions follow the command.
- `src/playground.rs`, `src/godbolt.rs`: the requests and replies of the
  code-running commands.
- `src/crates.rs`, `src/tags.rs`, `src/api.rs`, `src/ban.rs`,
  `src/welcome.rs`: the replies and plans of the other commands.
- `src/parse.rs`, `src/strings.rs`: numbers, mentions and text helpers.
- `tests/`: tests of the library on concrete values.
- `app/`: the Discord client, the database and the HTTP calls.
