# botrail_scene

Rolls out the programs of a robot cell over simulated time, lowers the same
programs to a robot's own job steps, and sweeps the cell with a lidar. The
library under `src/` is verified with Verus; `app/` feeds it with what takes
floating point: poses, trajectories, contacts.

Lengths, angles and times are whole numbers of a million-millionth of a unit
(`Pico`, in `src/fixed.rs`). The library never asks anything of the world
itself. A `Run` says by its `Phase` what it wants to know next, is told by a
`Reply`, and goes on; its contracts say what follows from every reply.

| files | what they hold |
| --- | --- |
| `seq`, `scene`, `names`, `flat` | programs and cells, and how their parts are found |
| `engine`, `programs`, `rollout`, `setup`, `finish`, `accept`, `simulate` | the machine that runs the programs, scan by scan |
| `fire`, `command`, `dispatch` | what a step's actions do |
| `tick`, `devices`, `world`, `supply`, `sensors`, `zone` | what happens between two scans |
| `vehicle`, `ride`, `aisle` | vehicles, what they carry and what they run into |
| `gait`, `walk`, `stride` | machines that walk |
| `robots`, `motion`, `lanes`, `tracks`, `timeline` | what a run leaves behind, and how it is read |
| `script`, `program`, `lower`, `export` | job steps for robots and for a line |
| `coverage`, `scan`, `error`, `text` | which arms were taken, lidar sweeps, messages |
| `laws`, `whole`, `tiling`, `unbroken`, `mounted`, `held`, `rigid` | what holds of whole runs and whole programs |
