# water_rooms

Rooms carved at random into a 70 by 45 grid of characters, joined by tunnels,
and water that pours from a source at the top and settles in them, one tick
at a time. The logic is a verified library; `app/` is the egui window around it.

Layout of `src/`:

- `simulation/grid.rs`: the grid model (rows of one-character cells) and the
  cell accessors. A position outside the grid reads as a wall `#`.
- `simulation/cell.rs`: what counts as water and what counts as a wall.
- `simulation/water.rs`: one tick of water flow, stated cell by cell as the
  rules `left_step` and `right_step`, swept bottom-up over the grid.
- `simulation/room.rs`: drawing, carving and joining rooms.
- `simulation/random.rs`: the one call into `rand`.
- `simulation/mod.rs`: rendering walls and text, the source search, the state
  and its three events (a frame, "generate layout", "water ON/OFF"), and the
  laws that relate them.
- `lib.rs`: `WaterRooms`, the app's state and buttons.

Where the flow direction or a room is left to chance, the contracts say what
holds for every draw.
