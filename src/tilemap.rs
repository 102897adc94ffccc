use crate::grid::{lemma_coord_index, lemma_index_coord, Bounds, Coord};
use crate::layout::{
    fill_tokens, layout, layout_text, option_views, shown_tokens, Formatting,
};
use crate::tile::{styled_text, Tile};
use std::collections::HashMap;
use vstd::prelude::*;

verus! {

broadcast use vstd::std_specs::hash::group_hash_axioms;

/// A map of tiles over a rectangle of coordinates, with the rules to draw it.
///
/// Only the cells that hold a value are stored, keyed by their row-major
/// position; a cell with nothing is drawn as the default value of `T`.
pub struct TileMap<T> {
    pub formatting: Formatting,
    bounds: Bounds,
    cells: HashMap<usize, T>,
}

impl<T: Tile + Default> TileMap<T> {
    pub open spec fn wf(&self) -> bool {
        self.spec_bounds().wf() && self.spec_cells().len() == self.spec_bounds().size()
            && self.keys_in_range()
    }

    pub closed spec fn keys_in_range(&self) -> bool {
        forall|k: usize| #[trigger] self.cells@.contains_key(k) ==> k < self.bounds.size()
    }

    pub closed spec fn spec_formatting(&self) -> Formatting {
        self.formatting
    }

    pub closed spec fn spec_bounds(&self) -> Bounds {
        self.bounds
    }

    /// What every cell holds, in row-major order.
    pub closed spec fn spec_cells(&self) -> Seq<Option<T>> {
        Seq::new(
            self.bounds.size(),
            |i: int|
                if self.cells@.contains_key(i as usize) {
                    Some(self.cells@[i as usize])
                } else {
                    None
                },
        )
    }

    /// What the cell at `c` holds; nothing outside the bounds.
    pub open spec fn spec_get(&self, c: Coord) -> Option<T> {
        if self.spec_bounds().spec_contains(c) {
            self.spec_cells()[self.spec_bounds().spec_index(c)]
        } else {
            None
        }
    }

    /// An empty map over `bounds`, drawn by the rules `formatting`.
    pub fn with_bounds(bounds: Bounds, formatting: Formatting) -> (r: Self)
        requires
            bounds.wf(),
        ensures
            r.wf(),
            r.spec_formatting() == formatting,
            r.spec_bounds() == bounds,
            forall|i: int| 0 <= i < bounds.size() ==> r.spec_cells()[i] is None,
    {
        TileMap { formatting, bounds, cells: HashMap::new() }
    }
}

impl<T: Tile + Default> TileMap<T> {
    /// An empty `width` by `depth` map starting at `(0, 0)`, with the default rules.
    pub fn new(width: u8, depth: u8) -> (r: Self)
        requires
            width >= 1,
            depth >= 1,
        ensures
            r.wf(),
            r.spec_formatting() == Formatting::spec_default(),
            r.spec_bounds().spec_start() == (Coord { x: 0, y: 0 }),
            r.spec_bounds().spec_end() == (Coord { x: (width - 1) as u8, y: (depth - 1) as u8 }),
            forall|c: Coord| r.spec_get(c) is None,
    {
        Self::formatted(width, depth, Formatting::default())
    }

    /// An empty `width` by `depth` map starting at `(0, 0)`, with the given rules.
    pub fn formatted(width: u8, depth: u8, formatting: Formatting) -> (r: Self)
        requires
            width >= 1,
            depth >= 1,
        ensures
            r.wf(),
            r.spec_formatting() == formatting,
            r.spec_bounds().spec_start() == (Coord { x: 0, y: 0 }),
            r.spec_bounds().spec_end() == (Coord { x: (width - 1) as u8, y: (depth - 1) as u8 }),
            forall|c: Coord| r.spec_get(c) is None,
    {
        let r = Self::with_bounds(Bounds::new(width, depth), formatting);
        proof {
            r.lemma_empty();
        }
        r
    }

    /// An empty map over `bounds`, with the default rules.
    pub fn from_bounds(bounds: Bounds) -> (r: Self)
        requires
            bounds.wf(),
        ensures
            r.wf(),
            r.spec_formatting() == Formatting::spec_default(),
            r.spec_bounds() == bounds,
            forall|c: Coord| r.spec_get(c) is None,
    {
        let r = Self::with_bounds(bounds, Formatting::default());
        proof {
            r.lemma_empty();
        }
        r
    }

    /// A map over `bounds`, with the default rules, holding each of `entries`.
    /// Every entry must lie within `bounds`, at a coordinate of its own.
    pub fn from_entries(bounds: Bounds, entries: Vec<(Coord, T)>) -> (r: Self)
        requires
            bounds.wf(),
            forall|i: int| 0 <= i < entries@.len() ==> bounds.spec_contains(#[trigger] entries@[i].0),
            forall|i: int, j: int|
                0 <= i < j < entries@.len() ==> #[trigger] entries@[i].0 != #[trigger] entries@[j].0,
        ensures
            r.wf(),
            r.spec_formatting() == Formatting::spec_default(),
            r.spec_bounds() == bounds,
            forall|i: int|
                0 <= i < entries@.len() ==> r.spec_get(#[trigger] entries@[i].0) == Some(entries@[i].1),
            forall|c: Coord|
                (forall|i: int| 0 <= i < entries@.len() ==> #[trigger] entries@[i].0 != c) ==> r.spec_get(c) is None,
    {
        let ghost all = entries@;
        let mut r = Self::from_bounds(bounds);
        let mut rest = entries;
        while rest.len() > 0
            invariant
                r.wf(),
                r.spec_formatting() == Formatting::spec_default(),
                r.spec_bounds() == bounds,
                rest@ == all.subrange(0, rest@.len() as int),
                rest@.len() <= all.len(),
                forall|i: int| 0 <= i < all.len() ==> bounds.spec_contains(#[trigger] all[i].0),
                forall|i: int, j: int|
                    0 <= i < j < all.len() ==> #[trigger] all[i].0 != #[trigger] all[j].0,
                forall|i: int|
                    rest@.len() <= i < all.len() ==> r.spec_get(#[trigger] all[i].0) == Some(all[i].1),
                forall|c: Coord|
                    (forall|i: int| rest@.len() <= i < all.len() ==> #[trigger] all[i].0 != c)
                        ==> r.spec_get(c) is None,
            decreases rest@.len(),
        {
            let ghost k = (rest@.len() - 1) as int;
            let (c, v) = rest.pop().unwrap();
            assert(c == all[k].0);
            r.insert(c, v);
            assert forall|i: int| k <= i < all.len() implies r.spec_get(#[trigger] all[i].0) == Some(all[i].1) by {
                if i != k {
                    assert(all[k].0 != all[i].0);
                }
            }
            assert forall|c2: Coord|
                (forall|i: int| k <= i < all.len() ==> #[trigger] all[i].0 != c2) implies r.spec_get(c2) is None by {
                assert(all[k].0 != c2);
            }
        }
        r
    }

    proof fn lemma_empty(&self)
        requires
            self.wf(),
            forall|i: int| 0 <= i < self.spec_bounds().size() ==> self.spec_cells()[i] is None,
        ensures
            forall|c: Coord| self.spec_get(c) is None,
    {
        assert forall|c: Coord| self.spec_get(c) is None by {
            if self.spec_bounds().spec_contains(c) {
                lemma_index_coord(self.spec_bounds(), c);
            }
        }
    }

    /// The bounds of the map.
    pub fn bounds(&self) -> (r: Bounds)
        ensures
            r == self.spec_bounds(),
    {
        self.bounds
    }

    /// The value at `c`, if there is one.
    pub fn get(&self, c: Coord) -> (r: Option<&T>)
        requires
            self.wf(),
        ensures
            match r {
                Some(v) => self.spec_get(c) == Some(*v),
                None => self.spec_get(c) is None,
            },
    {
        if self.bounds.contains(c) {
            let i = self.bounds.index(c);
            self.cells.get(&i)
        } else {
            None
        }
    }

    /// Puts `value` at `c` and returns what was there before.
    pub fn insert(&mut self, c: Coord, value: T) -> (r: Option<T>)
        requires
            old(self).wf(),
            old(self).spec_bounds().spec_contains(c),
        ensures
            final(self).wf(),
            final(self).spec_formatting() == old(self).spec_formatting(),
            final(self).spec_bounds() == old(self).spec_bounds(),
            r == old(self).spec_get(c),
            final(self).spec_get(c) == Some(value),
            forall|o: Coord| o != c ==> final(self).spec_get(o) == old(self).spec_get(o),
    {
        let i = self.bounds.index(c);
        let prev = self.cells.insert(i, value);
        proof {
            assert(vstd::std_specs::hash::obeys_key_model::<usize>());
            assert(self.cells@ == old(self).cells@.insert(i, value));
            self.lemma_cells_update(*old(self), i, Some(value));
            self.lemma_single_change(*old(self), c);
        }
        prev
    }

    /// Takes the value at `c` out of the map, if there is one.
    pub fn remove(&mut self, c: Coord) -> (r: Option<T>)
        requires
            old(self).wf(),
        ensures
            final(self).wf(),
            final(self).spec_formatting() == old(self).spec_formatting(),
            final(self).spec_bounds() == old(self).spec_bounds(),
            r == old(self).spec_get(c),
            final(self).spec_get(c) is None,
            forall|o: Coord| o != c ==> final(self).spec_get(o) == old(self).spec_get(o),
    {
        if self.bounds.contains(c) {
            let i = self.bounds.index(c);
            let prev = self.cells.remove(&i);
            proof {
                assert(vstd::std_specs::hash::obeys_key_model::<usize>());
                assert(self.cells@ == old(self).cells@.remove(i));
                self.lemma_cells_update(*old(self), i, None);
                self.lemma_single_change(*old(self), c);
            }
            prev
        } else {
            None
        }
    }

    /// Changing the store at one key changes the cell at that position only.
    proof fn lemma_cells_update(&self, before: Self, i: usize, cell: Option<T>)
        requires
            self.bounds == before.bounds,
            before.wf(),
            i < before.spec_bounds().size(),
            self.cells@ == (match cell {
                Some(v) => before.cells@.insert(i, v),
                None => before.cells@.remove(i),
            }),
        ensures
            self.spec_cells() == before.spec_cells().update(i as int, cell),
            self.wf(),
    {
        let b = self.bounds;
        b.lemma_size_bound();
        assert forall|j: int| 0 <= j < b.size() implies #[trigger] self.spec_cells()[j]
            == before.spec_cells().update(i as int, cell)[j] by {
            assert((j as usize) as int == j);
        }
        assert(self.spec_cells() =~= before.spec_cells().update(i as int, cell));
    }

    /// Two maps over the same bounds whose cells differ at most at `c` agree
    /// at every other coordinate.
    proof fn lemma_single_change(&self, before: Self, c: Coord)
        requires
            self.wf(),
            before.wf(),
            self.spec_bounds() == before.spec_bounds(),
            self.spec_bounds().spec_contains(c),
            self.spec_cells() == before.spec_cells().update(
                self.spec_bounds().spec_index(c),
                self.spec_cells()[self.spec_bounds().spec_index(c)],
            ),
        ensures
            forall|o: Coord| o != c ==> self.spec_get(o) == before.spec_get(o),
    {
        let b = self.spec_bounds();
        lemma_index_coord(b, c);
        assert forall|o: Coord| o != c implies self.spec_get(o) == before.spec_get(o) by {
            if b.spec_contains(o) {
                lemma_index_coord(b, o);
            }
        }
    }

    /// Replaces the drawing rules.
    pub fn set_formatting(&mut self, formatting: Formatting)
        requires
            old(self).wf(),
        ensures
            final(self).wf(),
            final(self).spec_formatting() == formatting,
            final(self).spec_bounds() == old(self).spec_bounds(),
            final(self).spec_cells() == old(self).spec_cells(),
    {
        self.formatting = formatting;
    }

    /// The drawing rules.
    pub fn formatting(&self) -> (r: Formatting)
        ensures
            r == self.spec_formatting(),
    {
        self.formatting
    }

    /// The coordinates that hold a value, in row-major order.
    pub fn occupied(&self) -> (r: Vec<Coord>)
        requires
            self.wf(),
        ensures
            forall|k: int| 0 <= k < r@.len() ==> self.spec_get(#[trigger] r@[k]) is Some,
            forall|c: Coord| self.spec_get(c) is Some ==> exists|k: int| 0 <= k < r@.len() && #[trigger] r@[k] == c,
            forall|k: int, l: int|
                0 <= k < l < r@.len() ==> self.spec_bounds().spec_index(#[trigger] r@[k])
                    < self.spec_bounds().spec_index(#[trigger] r@[l]),
    {
        let b = self.bounds;
        let n = b.cell_count();
        let w = b.width();
        let mut out: Vec<Coord> = Vec::new();
        let mut i: usize = 0;
        while i < n
            invariant
                self.wf(),
                b == self.spec_bounds(),
                n == b.size(),
                w == b.spec_width(),
                i <= n,
                forall|k: int| 0 <= k < out@.len() ==> self.spec_get(#[trigger] out@[k]) is Some,
                forall|k: int| 0 <= k < out@.len() ==> b.spec_contains(#[trigger] out@[k]),
                forall|k: int| 0 <= k < out@.len() ==> b.spec_index(#[trigger] out@[k]) < i,
                forall|c: Coord|
                    b.spec_contains(c) && b.spec_index(c) < i && self.spec_get(c) is Some ==> exists|k: int|
                        0 <= k < out@.len() && #[trigger] out@[k] == c,
                forall|k: int, l: int|
                    0 <= k < l < out@.len() ==> b.spec_index(#[trigger] out@[k]) < b.spec_index(
                        #[trigger] out@[l],
                    ),
            decreases n - i,
        {
            proof {
                lemma_coord_index(b, i as int);
                let wi = w as int;
                let di = b.spec_depth() as int;
                assert(0 <= (i as int) / wi < di && 0 <= (i as int) % wi < wi) by (nonlinear_arith)
                    requires
                        0 <= i < wi * di,
                        wi >= 1,
                ;
            }
            let ghost prev = out@;
            if self.cells.contains_key(&i) {
                let c = Coord {
                    x: (b.start.x as usize + i % w as usize) as u8,
                    y: (b.start.y as usize + i / w as usize) as u8,
                };
                assert(c == b.spec_coord(i as int));
                out.push(c);
                assert(out@[out@.len() - 1] == c);
            }
            proof {
                assert forall|c: Coord|
                    b.spec_contains(c) && b.spec_index(c) < i + 1 && self.spec_get(c) is Some implies exists|k: int|
                        0 <= k < out@.len() && #[trigger] out@[k] == c by {
                    lemma_index_coord(b, c);
                    if b.spec_index(c) == i {
                        assert(out@[out@.len() - 1] == c);
                    } else {
                        let k = choose|k: int| 0 <= k < prev.len() && #[trigger] prev[k] == c;
                        assert(out@[k] == c);
                    }
                }
            }
            i = i + 1;
        }
        proof {
            assert forall|c: Coord| self.spec_get(c) is Some implies exists|k: int|
                0 <= k < out@.len() && #[trigger] out@[k] == c by {
                lemma_index_coord(b, c);
            }
        }
        out
    }

    /// The styled label of the value of every cell that holds one, in
    /// row-major order; nothing for the others.
    fn cell_texts(&self) -> (r: Vec<Option<String>>)
        requires
            self.wf(),
        ensures
            texts_follow_cells(option_views(r@), self.spec_cells()),
    {
        let n = self.bounds.cell_count();
        let mut out: Vec<Option<String>> = Vec::new();
        let mut i: usize = 0;
        while i < n
            invariant
                self.wf(),
                n == self.spec_bounds().size(),
                i <= n,
                out@.len() == i,
                forall|j: int| 0 <= j < i ==> (#[trigger] out@[j] is Some) == (self.spec_cells()[j] is Some),
            decreases n - i,
        {
            let text = match self.cells.get(&i) {
                Some(v) => Some(styled_text(v.tile())),
                None => None,
            };
            out.push(text);
            i = i + 1;
        }
        assert(texts_follow_cells(option_views(out@), self.spec_cells()));
        out
    }

    /// The map drawn as text: the layout of `spec_formatting` in which every
    /// cell that holds a value shows that value's styled label, and every
    /// other cell one and the same label, the default value's.
    pub fn to_string(&self) -> (r: String)
        requires
            self.wf(),
        ensures
            exists|texts: Seq<Option<Seq<char>>>, default: Seq<char>|
                texts_follow_cells(texts, self.spec_cells()) && r@ == layout(
                    self.spec_formatting(),
                    self.spec_bounds().spec_width(),
                    self.spec_bounds().spec_depth(),
                    #[trigger] shown_tokens(texts, default),
                ),
    {
        let default = styled_text(T::default().tile());
        let texts = self.cell_texts();
        let t = fill_tokens(&texts, &default);
        assert(t@.len() == shown_tokens(option_views(texts@), default@).len());
        layout_text(self.formatting, self.bounds.width(), self.bounds.depth(), &t)
    }
}

/// Whether every entry lies within `bounds`: the condition under which a map
/// may be built from them.
pub fn entries_within<T>(bounds: &Bounds, entries: &Vec<(Coord, T)>) -> (r: bool)
    ensures
        r == forall|i: int| 0 <= i < entries@.len() ==> bounds.spec_contains(#[trigger] entries@[i].0),
{
    let mut i: usize = 0;
    while i < entries.len()
        invariant
            i <= entries@.len(),
            forall|j: int| 0 <= j < i ==> bounds.spec_contains(#[trigger] entries@[j].0),
        decreases entries@.len() - i,
    {
        if !bounds.contains(entries[i].0) {
            return false;
        }
        i = i + 1;
    }
    true
}

/// `texts` has one entry per cell, with a text exactly where the cell holds
/// a value.
pub open spec fn texts_follow_cells<T>(texts: Seq<Option<Seq<char>>>, cells: Seq<Option<T>>) -> bool {
    texts.len() == cells.len() && forall|i: int|
        0 <= i < texts.len() ==> (#[trigger] texts[i] is Some) == (cells[i] is Some)
}

/// A map that holds nothing at any coordinate holds nothing at any
/// row-major position, so every cell is drawn with the default value.
pub proof fn lemma_empty_map_cells<T: Tile + Default>(m: TileMap<T>)
    requires
        m.wf(),
        forall|c: Coord| m.spec_get(c) is None,
    ensures
        forall|i: int| 0 <= i < m.spec_bounds().size() ==> m.spec_cells()[i] is None,
{
    assert forall|i: int| 0 <= i < m.spec_bounds().size() implies m.spec_cells()[i] is None by {
        lemma_coord_index(m.spec_bounds(), i);
        assert(m.spec_get(m.spec_bounds().spec_coord(i)) is None);
    }
}

/// Giving `v` to `c` in a map that held nothing leaves `v` at the row-major
/// position of `c` and nothing at every other position.
pub proof fn lemma_insert_into_empty<T: Tile + Default>(
    before: TileMap<T>,
    after: TileMap<T>,
    c: Coord,
    v: T,
)
    requires
        before.wf(),
        after.wf(),
        after.spec_bounds() == before.spec_bounds(),
        forall|o: Coord| before.spec_get(o) is None,
        after.spec_get(c) == Some(v),
        forall|o: Coord| o != c ==> after.spec_get(o) == before.spec_get(o),
    ensures
        forall|i: int|
            0 <= i < after.spec_bounds().size() ==> after.spec_cells()[i] == (if i
                == after.spec_bounds().spec_index(c) {
                Some(v)
            } else {
                None
            }),
{
    let b = after.spec_bounds();
    assert forall|i: int| 0 <= i < b.size() implies after.spec_cells()[i] == (if i == b.spec_index(
        c,
    ) {
        Some(v)
    } else {
        None
    }) by {
        lemma_coord_index(b, i);
        let o = b.spec_coord(i);
        if o != c {
            assert(after.spec_get(o) == before.spec_get(o));
        }
    }
}

/// Drawing a map that holds nothing shows the default value's label at
/// every cell.
pub proof fn lemma_empty_map_render<T: Tile + Default>(
    m: TileMap<T>,
    texts: Seq<Option<Seq<char>>>,
    default: Seq<char>,
)
    requires
        m.wf(),
        forall|c: Coord| m.spec_get(c) is None,
        texts_follow_cells(texts, m.spec_cells()),
    ensures
        shown_tokens(texts, default) == Seq::new(m.spec_bounds().size(), |i: int| default),
{
    lemma_empty_map_cells(m);
    assert(shown_tokens(texts, default) =~= Seq::new(m.spec_bounds().size(), |i: int| default));
}

/// Drawing a map that held nothing after `c` was given a value shows that
/// value's label at the position of `c`, and the default value's label at
/// every other cell.
pub proof fn lemma_insert_into_empty_render<T: Tile + Default>(
    before: TileMap<T>,
    after: TileMap<T>,
    c: Coord,
    v: T,
    texts: Seq<Option<Seq<char>>>,
    default: Seq<char>,
)
    requires
        before.wf(),
        after.wf(),
        after.spec_bounds() == before.spec_bounds(),
        forall|o: Coord| before.spec_get(o) is None,
        after.spec_get(c) == Some(v),
        forall|o: Coord| o != c ==> after.spec_get(o) == before.spec_get(o),
        texts_follow_cells(texts, after.spec_cells()),
    ensures
        texts[after.spec_bounds().spec_index(c)] is Some,
        shown_tokens(texts, default)[after.spec_bounds().spec_index(c)]
            == texts[after.spec_bounds().spec_index(c)]->Some_0,
        forall|i: int|
            0 <= i < after.spec_bounds().size() && i != after.spec_bounds().spec_index(c)
                ==> #[trigger] shown_tokens(texts, default)[i] == default,
{
    lemma_insert_into_empty(before, after, c, v);
    lemma_index_coord(after.spec_bounds(), c);
}

} // verus!
