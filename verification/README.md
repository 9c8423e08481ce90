# drone_swarm

Decentralised control of a drone swarm in a room without a positioning system,
written in [Verus](https://github.com/verus-lang/verus). Every drone runs the
same loop on what it believes, never on where things truly are:

> self-localisation -> cooperative localisation -> mapping -> neighbour
> tracking -> goal consensus -> collision avoidance -> quadrotor control

under sensor noise, thrust noise, lost packets, planning at different rates, a
moving goal and a moving obstacle.

## What is proved

Quantities are single-precision numbers. The library computes with them bit by
bit (`scalar`, `vector`, `matrix`), against a specification of IEEE 754
arithmetic on whole counts (`number`), so the contract of a step of the swarm
says which numbers come out, to the last bit. On top of that stand guarantees
in real numbers:

| Module        | Guarantee |
|---------------|-----------|
| `speed`       | whatever has to be avoided, the speed limit holds |
| `walls`       | inside the safe box nothing pushes; outside, the push points in, grows linearly with the depth and is one at the wall |
| `approach`    | the time to a collision is the first at which the body is within the radius, and without one it stays out up to the horizon |
| `safety`      | a drone closes in on a lone body no faster than the distance allows, and backs away from one that comes on, up to 5.5 m/s |
| `retreat`     | the same up to the speed limit of 7 m/s, less exactly the nearer the retreat is to the limit |
| `clearance`   | a velocity that keeps to the caps is collision-free for the horizon, and a drone within the safety radius leaves it |
| `crowd`       | the caps of several bodies hold together, and none of the bodies is hit, where no body is on a side away from another; if some have to be backed away from, but for what the speed limit then takes off |
| `consistency` | an intersection of two estimates is not overconfident, whatever their correlation; an argument on exact matrices |
| `preference`  | of two estimates, the one that knows more about every direction gets all the weight; on exact matrices too |
| `merging`, `placement` | the same of what is computed, roundings included, for covariances that are symmetric within roundings and up to forty times as flat in one direction as in another: an intersection follows its formula, is no vaguer than the first estimate, and ignores an estimate that is vaguer in every direction |
| `intersection`| for diagonal covariances, however flat: the same, and that an intersection covers the error of the weighted mean |
| `learning`    | a range narrows the belief along the line of sight to below its own noise, a sighting of a neighbour narrows its track, and neither makes any direction vaguer; on exact matrices |
| `foresight`   | a prediction carries the spread of the belief along and adds that of an unknown acceleration |
| `turns`       | wrapping an angle takes whole turns off, and an azimuth that is a full turn off leaves the same track |
| `tracking`    | a drone tracks those that it hears, never itself, and forgets the silent |
| `evidence`    | fusing goal beliefs without rounding: precisions add up, places divide the way between them, and no order matters |
| `agreement`   | fused goal beliefs lie between the two and are surer than both; a belief never decays faster than time alone makes it |
| `pooling`     | three goal beliefs come to the same in whichever order they are fused |
| `limits`      | thrust tilts no faster than the airframe can and keeps within the battery |

Other guarantees stand beside the functions they are about, as public proof
functions whose names begin with `law_`.

## Layout

- `src/` is the verified library. `sim`, `swarm`, `broadcast`, `selfloc`,
  `slam`, `neighbors`, `goal`, `quad` are the steps of the loop; `scene`,
  `overlay` and `hud` say what is shown.
- `tests/` compares the arithmetic with the machine's own and with `nalgebra`
  and `glam`, bit by bit, and runs the steps on small swarms.
- `app/` is the simulator around the library, with Bevy and Avian: it draws the
  random numbers, evaluates trigonometric functions and eigenvalues, keeps the
  entities and steps the physics. The display is printed to the terminal; to
  open a window, add the `bevy_winit` feature of Bevy and that of the window
  system (`x11` or `wayland`).
