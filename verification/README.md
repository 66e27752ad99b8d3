# ferraria

The rules of a small 2D sandbox game, as a library verified with Verus.

`src/` holds the game's logic with its contracts and laws:

- `items`, `tiles`, `world`: items and inventory slots, tiles and the tile grid.
- `coins`: counting, granting and paying coin amounts across the four coin
  denominations, with change-making.
- `npc`: town NPC data, arrival conditions, dialogue lines, the merchant's
  prices and the nurse's fee.
- `housing`: room validation by flood fill and the search for a vacant house.
- `interact`: which intent the mouse buttons send for the held item and the
  aimed cell (mine a block or wall, use a weapon or consumable, toggle a
  door, open a chest, put down a bottle, place a block or wall).
- `light`: the client's tile light field (sky light, torches, dynamic sources)
  and the dirty-chunk bookkeeping that decides when it is recomputed.
- `town`: merchant and nurse transactions, debuffs, the dialogue context, and
  (in `town::roster`) the NPC roster's dawn pass: home revalidation, house
  claims, respawns and arrivals, over a roster kept in increasing id order.
- `spawning`: enemy spawn suppression near town, placement checks and coin
  drops.
- `protocol`: the plain data carried on the wire.

`app/` is the unverified rim: serde copies of the wire types with
postcard framing, the server's town request handlers (talk range, toasts,
drops, broadcasts around the library's transactions, and the dawn pass
over the id-keyed roster map), the wire messages for the button intents,
and the floating-point helpers for brightness and distances.

`tests/` runs the library on concrete inputs.
