# r-heatmap

A terminal heatmap of a machine's temperatures, fans, voltages, power and load.

- `src/` is the verified library. It holds everything the monitor decides: parsing
  `/proc/stat`, `/proc/meminfo` and the `sysfs` files of `hwmon`, `drm`, `powercap` and
  `power_supply`; turning counters into usage and power; naming drives and GPU adapters
  from what Windows hands back; merging fresh readings into a row; sorting sensors into
  rows; laying tiles out on a grid; and the colour scale. Values are exact fractions
  (`reading::Quantity`), so every figure the library computes, and the rounding of
  the figures it writes into labels and notes (memory sizes, core clocks), is stated
  and proved. The figures shown on the tiles are formatted by the terminal interface
  in `app/`.
- `app/` is the program around it: command line, configuration file, logging, the
  terminal interface with the float formatting of tile figures, and the system calls
  and file reads that feed the library.
- `tests/` runs the library on concrete inputs.
