# pixel_widgets

The core of a small GUI toolkit, verified with Verus: the stylesheet language (tokenizer,
selector and property readers, the rule tree that matches widgets against selectors), the bit
sets that record which rules match a widget, the texture atlas and cache that pack images into
textures, a quad tree, and the tracker that keeps widget state across rebuilds of the ui.

Layout:

- `src/` is the verified library. Every public function carries a contract, and the laws that
  hold across calls are public proof functions next to the code they speak of:
  - `bitset.rs`: bit sets and their iteration in increasing order.
  - `style/`: selectors and their matching (`mod.rs`), the tokenizer (`tokenize.rs`), the readers
    of selectors and property values (`parse.rs`), declarations, rules and whole stylesheets
    (`declaration.rs`), plain stylesheets of element names, classes and `key: value` rules
    (`sheet.rs`), and the rule tree with its builder (`tree.rs`).
  - `atlas.rs`, `qtree.rs`: square areas handed out from a quad tree; `cache.rs`: the texture
    cache on top of the atlas, which also decodes images and nine-patches (reading their
    border marks and cutting the border off) before placing them.
  - `resources.rs`: the images and nine-patches that backgrounds name, each url loaded once.
  - `plan.rs`: the draw list of a frame as integers: commands over vertex ranges, layer above
    layer, and where each shape's vertices go.
  - `tracker.rs`: widget state kept across rebuilds; `component_node.rs`: a state accessor that
    notes changes.
  - `event.rs`, `layout.rs`, `draw.rs`: plain data types.
- `app/` holds what works in floating point or with outside types: geometry and colours, the
  error type as it is displayed, declarations with their numbers read as `f32`, and texture
  coordinates of the images placed in the cache.
- `tests/` exercises the library on concrete values.
