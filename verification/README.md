# firemap

A profile based Linux input remapper: physical devices are selected strictly by
name and USB identity, their key events are remapped (single keys, combos,
autofire) and sent through a virtual `uinput` keyboard.

The library under `src/` holds the logic, each function with a contract that
Verus proves:

- `config` – the shapes of `hardware.toml` and profile files, the normalised
  hardware configuration, and the merge of a profile with it.
- `discovery` – input node candidates, udev value normalisation, event node order.
- `selection` – strict selection of exactly one node per configured device.
- `remap` – per device remapping decisions: outputs, combo taps, autofire.
- `commands` – the command line and the explanations and listings of devices.
- `hardware` – starter `hardware.toml` blocks and the ranking of interfaces.
- `keycodes`, `paths`, `format`, `text` – key names, paths, `Debug` style text
  and character level helpers.

`app/` is the program around it: file and device I/O, udev and evdev access,
threads and the virtual keyboard.
