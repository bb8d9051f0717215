# finals_loadouts

Random teams and loadouts for private matches of THE FINALS, with the layout
of the picture that shows them. The library in `src/` is verified with Verus;
`app/` is the Discord bot around it (network, files, fonts and drawing).

- `src/loadout.rs`: one player's loadout; the three gadgets are three
  different entries of the class, and every ordered triple is equally likely.
- `src/teams.rs`: splitting a comma separated player list into teams.
- `src/data.rs`: building the classes of every game mode from the catalogue,
  registering each item picture once; every item's image id shows the
  picture decoded from that item's PNG file.
- `src/renderer.rs`: the sizes of the picture and what to draw where.
- `src/text.rs`: splitting, trimming and cutting names.
- `src/cmd.rs`, `src/cmd/start.rs`: the bot's commands and their options.
- `src/random.rs`: the calls into `rand`.
