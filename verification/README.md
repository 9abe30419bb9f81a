# trx_engine

TRX is a small text language for diagrams (nodes, connections, layers,
scenarios, style classes), packet layouts, state machines, XY charts and SQL
schemas. This crate reads TRX source into a project and prepares it for
layout and SVG or JSON output.

## Layout

- `src/` is the library, written and proved with Verus:
  - `parser/grammar.rs` reads source text into a syntax tree; its contract
    says that every node of the tree spans the text it was read from, with
    the grammar's punctuation, keywords and white space around its children.
    On text it cannot read, it says where it stopped: after a run of
    complete items, each read as far as its reader goes (the extent of a
    math expression, a packet, a state machine, an XY chart and a SQL table
    is given exactly, and a diagram's statements are read as far as they
    go), at a place where no item begins. That every text the grammar
    relation allows is read is not stated.
  - `parser/` (with `blocks/` and `expressions.rs`) turns the tree into the
    project's declarations and math expressions (operator precedence
    included); `parser::parse` and `compiler::compile` tie the two together.
  - `preprocess.rs` splices included files into one text and keeps the map
    from flattened lines back to the files they came from; its lemmas show
    that every flattened line traces back, through the map, to the line of
    the file it came from.
  - `ast/` holds the project's types, the style cascade (`style.rs`) and the
    colour buffer (`style_buffer.rs`).
  - `builder.rs` builds projects by calls; `layout/` ranks the nodes of a
    diagram for the layered placement; `evaluator.rs` turns expressions into
    evaluation plans; `resolution.rs` decides the order in which variables
    are resolved; `render.rs` holds the rendering decisions that do not
    depend on coordinates.
  - `text.rs` and `textmap.rs` are the string helpers and the insertion
    ordered map the rest is written with.
- `app/` is the command-line program and everything that works on
  floating-point numbers, files or outside crates' traits: evaluation of the
  plans, force-directed and layered placement, SVG drawing, JSON output and
  the WebAssembly entry points.
- `tests/` exercises the library from outside.
