# switchout

Switches external screens between mirror, extend, external-only and
internal-only on Hyprland, and manages the keybind that opens its menu.

- `src/` is the library, verified with Verus: the screen model (`hypr`), the
  remembered layouts (`state`), the rules a mode turns into and their Lua text
  (`plan`), the check of what Hyprland did (`applied`), the status lines
  (`status`), the keybind block of `hyprland.lua` (`setup`), the terminal
  menu's state (`tui`), text helpers (`text`) and the properties that hold
  across them (`laws`).
- `app/` is the program around it: the command line, `hyprctl`, files,
  JSON and the terminal interface.
- `tests/` runs the library on concrete screens and configs.

Refresh rates and scales are fixed-point integers in the library (thousandths
of a hertz, millionths); `app/` converts Hyprland's floating-point values.
