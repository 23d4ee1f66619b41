# clothes_qa

Quality inspection of clothing cartons: batches of cartons, the product
lists of the cartons, graded inspection records with up to three images, the
import of product lists from `.xlsx` sheets and the layout of the two export
workbooks (the seal sheets of the cartons and the inspection report).

`src/` is the library, verified with Verus:

- `schema.rs` — the tables of the store, their constraints (`DbModel::wf`) and
  what each operation does to them, as spec functions;
- `store.rs` and `store/` — the `Database` itself, whose type invariant is
  `wf`: batches and cartons, listings, records and their images, imports,
  exports, and the tables as rows;
- `carton_import.rs` — what importing product lists does;
- `sheet.rs` — reading an import sheet from its cells;
- `export.rs` — the layout of the export workbooks;
- `photos.rs`, `text.rs`, `order.rs`, `validate.rs`, `sort.rs`, `error.rs`,
  `models.rs` — images, text, listing orders, checks, errors and values;
- `laws.rs` — properties that span several operations (of the store, the
  import sheets and the export layout), those of the store stated of a
  well-formed model; `use_type_invariant` on a `Database` gives that its
  model is well formed.

`app/` is the desktop application around it: the commands of the user
interface, SQLite storage, image files and Excel workbooks on disk.
