# sfmtory

Sparse structure-from-motion and camera calibration, with its logic proved in
Verus.

- `src/` is the library. Its functions carry contracts that say what they
  return for the inputs they take, and Verus proves them. Where an outside
  function decides the result, the contract goes as far as that function's
  documentation does, and the wrapper's own comment says what is left open.
  Laws that relate several functions stand beside them as public proof
  functions.
- `tests/` runs the library on concrete values.
- `app/` is the program around it: the command line, the files, the database,
  the viewer, and everything that is floating point.

## How the library is laid out

| Modules | What they hold |
| --- | --- |
| `text`, `order`, `paths`, `sets`, `error` | characters, sorting, slash-separated paths, grouping, error texts |
| `project`, `dataset`, `listing`, `layout`, `layoutfile`, `linking`, `linktree` | the project's files, how images are found and called, declared layouts and their link trees |
| `camera`, `model`, `features`, `markers`, `merge`, `ingest`, `mapinput`, `stages` | the data of a reconstruction and what each stage decides |
| `ba`, `lm`, `refine`, `consensus` | the plan of a bundle adjustment, the course of a damped run, robust sampling |
| `modelselect`, `rebuild`, `tuning`, `rig` | searches over camera models, detector settings and captures |
| `exif`, `vanishing`, `initcam` | what a single image tells of its focal length |
| `diagnostics`, `residuals`, `graph`, `progress`, `pipeline`, `start`, `viewer`, `imageview`, `raster` | what is shown of a project and its result |

## Numbers

The library holds no floating-point number. Where it only carries one it is
generic over it; where it orders them it takes keys, integers that order as the
numbers do; and where a decision rests on one it takes the comparison's result
or asks for it, one step at a time.
