# entity_store

An in-memory database of entities and their components over time, and the views that show them,
written in Verus. What a function of `src/` promises is stated in its contract, and Verus proves that
its body keeps it. Of random numbers and the time nothing is promised.

## What is where

Storing data:

- `names`, `path`, `paths`, `row`: names, times, row ids, entity paths, cells and rows.
- `sorting`, `bucket`, `table`, `store`, `entries`: rows in buckets, buckets in tables, tables in a
  store; adding rows, and asking for the latest cell of a component.
- `gc`, `protect`, `stats`: dropping old rows until enough bytes are freed, which rows are kept, and
  how much a store holds.

The database around the store:

- `entity_db`, `times`, `tree`: what is known of the data apart from the data itself.
- `ingest`, `retry`, `clear`: taking data in, and emptying what is cleared.
- `upkeep`: keeping a database small, exporting it and cloning it.

Views:

- `view_id`, `space_view`, `contents`, `archetypes`, `components`: views, and how they are kept in a
  blueprint, which is a database as well.
- `filter`, `query`, `data_result`: which entities a view is about.
- `classes`, `overrides`: what shows an entity, and with which properties.

What holds of several functions together is stated as proof functions whose names begin with
`law_`. Those about more than one module have modules of their own: `survival` (what a collection of
garbage spares), `progress` (what it drops), `reports` (what its events say of that), `readback`
(what reading gives back of what was written), `coverage` (what a query finds).

## What is not proved

Functions marked `external_body` call other crates. Each names the function that it calls and states
what is taken for granted of it.

`app/` is ordinary code around the library: fractions and averages, the clock, the wire format and
the user interface. `tests/` runs the library.
