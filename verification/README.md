# bgawk

The verified core of a 2D physics sandbox built on Bevy and Avian.

- `src/` is the library, checked by Verus:
  - `links.rs` reads link scripts (`property < var`, `property > var`, one
    per line) and names their properties and directions;
  - `scripts.rs` writes a body's readings into its collision code;
  - `bodies.rs` holds collision layers, the pairs of bodies that attract
    each other, when a body is drawn and which collision scripts run;
  - `config.rs` names the configuration file;
  - `text.rs` holds the character-level specifications and helpers.
- `tests/` runs the library on concrete values.
- `app/` is the Bevy side: plugins, components and systems that read the
  world, call the library and apply its answers, including all float
  arithmetic.
