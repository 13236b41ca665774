# neoq

Neo4j helpers for Rust, with the logic verified by Verus.

- `src/` is the verified library:
  - `cypher`: the `cypher!` macro's logic, from input tokens to a query
    template with conditional blocks, and rendering the template, by the
    conditions that hold or by a value for each occurrence of a condition;
  - `into_bolt`: the `IntoBoltType` derive: reading the type definition
    from its tokens and deciding how the type converts;
  - `queries`: Cypher queries with named parameters, combining them, and
    the duplicated keys that combining drops;
  - `index_file`: splitting an index script and the steps that bring the
    database's indexes in line with it, stopping at the first failure;
  - `subgraphs`: collecting the nodes and relationships of result rows;
  - `shasum`: SHA-256 sums as lower-case hexadecimal.
- `app/` runs the queries through `neo4rs`, reads rows, and turns macro
  input into the library's tokens and the library's templates into code.
- `tests/` exercises the library on concrete inputs.
