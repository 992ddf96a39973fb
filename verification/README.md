# ecs

The storage and scheduling core of an entity-component-system, written in Verus.

- `src/` is the verified library:
  - entity handles and the entity registry (`handle`, `entity`), sparse sets (`sparse_set`);
  - component ids and their registry (`component`), bit sets and signatures (`bits`,
    `bitset`, `signature`, `archetype`), layouts (`util`);
  - columns of component values stored as bytes, tables and the archetype container
    (`table`, `archetype`), filters, query caches and the walk over their rows (`filter`,
    `query`), the world (`world`);
  - system access descriptions, what each system parameter declares (`param`), and the
    schedulers that order systems into sets that can run together (`graph`, `scheduler`,
    `layering`);
  - ticks, command buffers that frame each command as a record, events, resource ids and
    names, and small marker types (`sealed` among them).
- `app/` holds what works with values of arbitrary types: typed access to byte columns (which
  drops the values the library hands back), the resource store, per-thread command buffers with
  the encoding, application and dropping of typed commands, and the loop that runs a schedule.
- `tests/` exercises the library.
