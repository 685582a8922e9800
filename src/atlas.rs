//! The atlas builder: places uniform tiles ring by ring on a square canvas
//! that doubles when the next ring would not fit, and caches tile positions
//! by name and minimum alpha by rectangle.

use vstd::prelude::*;
use crate::packing::{cursor_after, lemma_ring_sizes, lemma_slots_distinct, next_cursor, slot};
use crate::pixel::{blank, lemma_u32_product, Image, PixelBuffer};

verus! {

/// A rectangle `(x, y, width, height)` in pixels.
pub type RectKey = (u32, u32, u32, u32);

/// Mathematical model of an atlas builder.
pub struct AtlasModel {
    /// The atlas pixels.
    pub canvas: Image,
    /// Directory that tile names are resolved in.
    pub path: Seq<char>,
    pub unit_width: nat,
    pub unit_height: nat,
    /// Names of the tiles placed so far, in the order they were placed.
    pub names: Seq<Seq<char>>,
    /// The image given for each tile; its top `unit_height` rows were placed.
    pub tiles: Seq<Image>,
    /// Side, in tiles, of the completely filled square.
    pub completed: nat,
    /// Offset in the ring being filled around that square.
    pub position: nat,
    /// Minimum alpha computed so far, by rectangle.
    pub alpha_cache: Map<RectKey, u8>,
}

/// A point of the interval `[a * u, (a + 1) * u)` lies outside
/// `[b * u, (b + 1) * u)` when `a != b`.
proof fn lemma_cells_apart(a: int, b: int, u: int, v: int)
    requires
        0 <= a,
        0 <= b,
        0 < u,
        a != b,
        a * u <= v < a * u + u,
    ensures
        !(b * u <= v < b * u + u),
{
    if a < b {
        assert(a * u + u <= b * u) by (nonlinear_arith)
            requires a + 1 <= b, 0 < u;
    } else {
        assert(b * u + u <= a * u) by (nonlinear_arith)
            requires b + 1 <= a, 0 < u;
    }
}

impl AtlasModel {
    /// Top-left pixel of the `k`-th tile placed.
    pub open spec fn corner(self, k: nat) -> (int, int) {
        ((slot(k).0 * self.unit_width) as int, (slot(k).1 * self.unit_height) as int)
    }

    /// Whether the `k`-th tile's area lies inside the canvas.
    pub open spec fn fits(self, k: nat) -> bool {
        &&& self.corner(k).0 + self.unit_width <= self.canvas.width
        &&& self.corner(k).1 + self.unit_height <= self.canvas.height
    }

    /// Whether each placed tile's area holds the top rows of the image given for it.
    pub open spec fn holds_tiles(self) -> bool {
        forall|k: int, x: int, y: int|
            0 <= k < self.names.len() && 0 <= x < self.unit_width && 0 <= y < self.unit_height
                ==> self.canvas.at(self.corner(k as nat).0 + x, self.corner(k as nat).1 + y)
                == #[trigger] self.tiles[k].at(x, y)
    }

    /// Whether `name` has been placed.
    pub open spec fn has(self, name: Seq<char>) -> bool {
        exists|i: int| 0 <= i < self.names.len() && self.names[i] == name
    }

    /// The load order of a placed `name`.
    pub open spec fn index_of(self, name: Seq<char>) -> int {
        choose|i: int| 0 <= i < self.names.len() && self.names[i] == name
    }

    /// The model's invariant: positive units, a canvas with one pixel per cell,
    /// the cursor that the number of placed tiles gives, distinct names, each
    /// placed tile inside the canvas and holding its pixels, and cached
    /// rectangles inside the canvas.
    pub open spec fn valid(self) -> bool {
        &&& self.unit_width > 0
        &&& self.unit_height > 0
        &&& self.canvas.width <= u32::MAX
        &&& self.canvas.height <= u32::MAX
        &&& self.canvas.pixels.len() == self.canvas.width * self.canvas.height
        &&& (self.completed, self.position) == cursor_after(self.names.len())
        &&& self.tiles.len() == self.names.len()
        &&& forall|i: int, j: int|
            0 <= i < j < self.names.len() ==> self.names[i] != self.names[j]
        &&& forall|k: int|
            0 <= k < self.tiles.len() ==> {
                &&& (#[trigger] self.tiles[k]).width == self.unit_width
                &&& self.tiles[k].height >= self.unit_height
                &&& self.tiles[k].pixels.len() == self.tiles[k].width * self.tiles[k].height
            }
        &&& forall|k: int| 0 <= k < self.names.len() ==> #[trigger] self.fits(k as nat)
        &&& self.holds_tiles()
        &&& forall|key: RectKey|
            #[trigger] self.alpha_cache.contains_key(key) ==> key.0 + key.2 <= self.canvas.width
                && key.1 + key.3 <= self.canvas.height
    }

    /// Whether the value cached for `key`, if any, is the least alpha over
    /// that rectangle of the current canvas.
    pub open spec fn alpha_current(self, key: RectKey) -> bool {
        self.alpha_cache.contains_key(key) ==> self.canvas.is_min_alpha(
            key.0 as int,
            key.1 as int,
            key.2 as int,
            key.3 as int,
            self.alpha_cache[key],
        )
    }

    /// Whether the `k`-th tile's area meets the rectangle `key`.
    pub open spec fn meets(self, k: nat, key: RectKey) -> bool {
        let c = self.corner(k);
        &&& key.0 < c.0 + self.unit_width
        &&& c.0 < key.0 + key.2
        &&& key.1 < c.1 + self.unit_height
        &&& c.1 < key.1 + key.3
    }

    /// Whether the next tile starts a ring that the canvas cannot hold.
    pub open spec fn needs_growth(self) -> bool {
        self.position == 0 && (self.unit_width * self.completed >= self.canvas.width
            || self.unit_height * self.completed >= self.canvas.height)
    }

    /// Whether the canvas can double and still have sizes in `u32` and a pixel
    /// count in `usize`.
    pub open spec fn can_grow(self) -> bool {
        &&& 2 * self.canvas.width <= u32::MAX
        &&& 2 * self.canvas.height <= u32::MAX
        &&& (2 * self.canvas.width) * (2 * self.canvas.height) <= usize::MAX
    }

    /// Whether `next` is this atlas after placing `tile` as the new tile `name`:
    /// the canvas doubles first if the new ring needs it, the old pixels keep
    /// their coordinates, the tile's top rows land at its slot's corner, and
    /// the cursor moves one step.
    pub open spec fn loads(self, name: Seq<char>, tile: Image, next: AtlasModel) -> bool {
        let k = self.names.len();
        let c = self.corner(k);
        &&& next.path == self.path
        &&& next.unit_width == self.unit_width
        &&& next.unit_height == self.unit_height
        &&& next.names == self.names.push(name)
        &&& next.tiles == self.tiles.push(tile)
        &&& (next.completed, next.position) == next_cursor((self.completed, self.position))
        &&& next.alpha_cache == self.alpha_cache
        &&& next.canvas.width == if self.needs_growth() {
            2 * self.canvas.width
        } else {
            self.canvas.width
        }
        &&& next.canvas.height == if self.needs_growth() {
            2 * self.canvas.height
        } else {
            self.canvas.height
        }
        &&& next.canvas.pixels.len() == next.canvas.width * next.canvas.height
        &&& forall|x: int, y: int|
            next.canvas.inside(x, y) ==> #[trigger] next.canvas.at(x, y) == if Image::in_rect(
                x,
                y,
                c.0,
                c.1,
                self.unit_width as int,
                self.unit_height as int,
            ) {
                tile.at(x - c.0, y - c.1)
            } else if self.canvas.inside(x, y) {
                self.canvas.at(x, y)
            } else {
                blank()
            }
    }
}

/// Placed tiles keep their pixels: when a new tile is loaded, every tile
/// placed before it still holds, at its position, the pixels it was given,
/// also when the canvas grew on the way.
pub proof fn lemma_load_keeps_tiles(a: AtlasModel, name: Seq<char>, tile: Image, b: AtlasModel)
    requires
        a.valid(),
        a.loads(name, tile, b),
        tile.width == a.unit_width,
        tile.height >= a.unit_height,
        tile.pixels.len() == tile.width * tile.height,
        b.fits(a.names.len()),
    ensures
        b.holds_tiles(),
{
    let n = a.names.len();
    let uw = a.unit_width as int;
    let uh = a.unit_height as int;
    let c = a.corner(n);
    assert(b.canvas.width >= a.canvas.width);
    assert(b.canvas.height >= a.canvas.height);
    assert forall|k: int, x: int, y: int|
        0 <= k < a.names.len() && 0 <= x < uw && 0 <= y < uh implies b.canvas.at(
            b.corner(k as nat).0 + x,
            b.corner(k as nat).1 + y,
        ) == #[trigger] a.tiles[k].at(x, y) by {
        let ck = a.corner(k as nat);
        assert(a.fits(k as nat));
        lemma_slots_distinct(k as nat, n);
        assert(ck.0 >= 0 && ck.1 >= 0) by (nonlinear_arith)
            requires ck.0 == slot(k as nat).0 * uw, ck.1 == slot(k as nat).1 * uh, uw > 0, uh > 0;
        if slot(k as nat).0 != slot(n).0 {
            lemma_cells_apart(slot(k as nat).0 as int, slot(n).0 as int, uw, ck.0 + x);
        } else {
            lemma_cells_apart(slot(k as nat).1 as int, slot(n).1 as int, uh, ck.1 + y);
        }
        assert(b.canvas.inside(ck.0 + x, ck.1 + y));
        assert(!Image::in_rect(ck.0 + x, ck.1 + y, c.0, c.1, uw, uh));
    }
    assert forall|k: int, x: int, y: int|
        0 <= k < b.names.len() && 0 <= x < b.unit_width && 0 <= y < b.unit_height
            implies b.canvas.at(b.corner(k as nat).0 + x, b.corner(k as nat).1 + y)
            == #[trigger] b.tiles[k].at(x, y) by {
        if k < n {
            assert(a.tiles[k] == b.tiles[k]);
            assert(a.tiles[k].at(x, y) == b.tiles[k].at(x, y));
        } else {
            assert(c.0 >= 0 && c.1 >= 0) by (nonlinear_arith)
                requires c.0 == slot(n).0 * uw, c.1 == slot(n).1 * uh, uw > 0, uh > 0;
            assert(b.canvas.inside(c.0 + x, c.1 + y));
            assert(Image::in_rect(c.0 + x, c.1 + y, c.0, c.1, uw, uh));
        }
    }
}

/// Loading is idempotent: once `name` has been loaded it is known, at the
/// position the load returned, so loading it again (a cache hit for `load`)
/// returns that same position and changes nothing.
pub proof fn lemma_load_idempotent(a: AtlasModel, name: Seq<char>, tile: Image, b: AtlasModel)
    requires
        a.valid(),
        b.valid(),
        a.loads(name, tile, b),
    ensures
        b.has(name),
        b.index_of(name) == a.names.len(),
        b.corner(b.index_of(name) as nat) == a.corner(a.names.len()),
{
    let n = a.names.len() as int;
    assert(b.names[n] == name);
    assert(b.has(name));
    let i = b.index_of(name);
    if i != n {
        assert(b.names[i] != b.names[n]);
    }
}

/// Cached alpha stays exact: a cached minimum that was the true minimum of
/// its rectangle stays so across a load whose tile does not meet that
/// rectangle; loads only add pixels outside the old canvas or inside the new
/// tile's area.
pub proof fn lemma_load_keeps_alpha(a: AtlasModel, name: Seq<char>, tile: Image, b: AtlasModel, key: RectKey)
    requires
        a.valid(),
        a.loads(name, tile, b),
        a.alpha_current(key),
        !a.meets(a.names.len(), key),
    ensures
        b.alpha_current(key),
{
    if a.alpha_cache.contains_key(key) {
        let c = a.corner(a.names.len());
        let (x, y, w, h) = (key.0 as int, key.1 as int, key.2 as int, key.3 as int);
        assert forall|i: int, j: int| x <= i < x + w && y <= j < y + h implies #[trigger] b.canvas.at(i, j)
            == a.canvas.at(i, j) by {
            assert(a.canvas.inside(i, j));
            assert(b.canvas.inside(i, j));
            assert(!Image::in_rect(i, j, c.0, c.1, a.unit_width as int, a.unit_height as int));
        }
        let v = a.alpha_cache[key];
        if w != 0 && h != 0 {
            let (wi, wj) = choose|i: int, j: int|
                x <= i < x + w && y <= j < y + h && #[trigger] a.canvas.at(i, j).a == v;
            assert(b.canvas.at(wi, wj).a == v);
        }
    }
}

/// The cache key of the rectangle `[x, y, width, height]`.
pub open spec fn rect_key(rect: [u32; 4]) -> RectKey {
    (rect@[0], rect@[1], rect@[2], rect@[3])
}

/// Where `load` put a tile, in pixels, and how many frames of its image
/// beyond the first it left out.
#[derive(Clone, Copy, Debug, PartialEq, Eq, Structural)]
pub struct Placement {
    pub x: u32,
    pub y: u32,
    pub ignored_frames: u32,
}

/// Why a tile could not be placed.
#[derive(Debug)]
pub enum AtlasError {
    /// The tile's width differs from the unit width.
    TileWidthMismatch { name: String, expected: u32, found: u32 },
    /// The tile's height is not a positive multiple of the unit height.
    TileHeightMismatch { name: String, unit: u32, found: u32 },
    /// The canvas would have to double beyond what `u32` sizes or the address
    /// space can hold.
    AtlasFull { name: String },
}

/// Builds an atlas of uniform tiles.
pub struct AtlasBuilder {
    image: PixelBuffer,
    path: String,
    unit_width: u32,
    unit_height: u32,
    completed_tiles_size: u32,
    position: u64,
    names: Vec<String>,
    positions: Vec<(u32, u32)>,
    alpha_keys: Vec<RectKey>,
    alpha_values: Vec<u8>,
    tiles: Ghost<Seq<Image>>,
    alpha_cache: Ghost<Map<RectKey, u8>>,
    span: Ghost<nat>,
}

impl View for AtlasBuilder {
    type V = AtlasModel;

    closed spec fn view(&self) -> AtlasModel {
        AtlasModel {
            canvas: self.image@,
            path: self.path@,
            unit_width: self.unit_width as nat,
            unit_height: self.unit_height as nat,
            names: self.names@.map_values(|s: String| s@),
            tiles: self.tiles@,
            completed: self.completed_tiles_size as nat,
            position: self.position as nat,
            alpha_cache: self.alpha_cache@,
        }
    }
}

impl AtlasBuilder {
    /// The stored positions, the canvas size in tiles and the alpha cache
    /// agree with the model.
    pub closed spec fn wf_fields(&self) -> bool {
        &&& self.image.wf()
        &&& self.positions@.len() == self.names@.len()
        &&& forall|k: int|
            0 <= k < self.positions@.len() ==> (#[trigger] self.positions@[k].0 as int, self.positions@[k].1 as int)
                == self@.corner(k as nat)
        &&& self.span@ >= 1
        &&& self.image@.width == self.unit_width * self.span@
        &&& self.image@.height == self.unit_height * self.span@
        &&& self.completed_tiles_size <= self.span@
        &&& self.position > 0 ==> self.completed_tiles_size < self.span@
        &&& self.alpha_keys@.len() == self.alpha_values@.len()
        &&& forall|i: int, j: int|
            0 <= i < j < self.alpha_keys@.len() ==> self.alpha_keys@[i] != self.alpha_keys@[j]
        &&& forall|key: RectKey|
            #[trigger] self.alpha_cache@.contains_key(key) <==> self.alpha_keys@.contains(key)
        &&& forall|i: int|
            0 <= i < self.alpha_keys@.len() ==> self.alpha_cache@[#[trigger] self.alpha_keys@[i]]
                == self.alpha_values@[i]
    }

    pub open spec fn wf(&self) -> bool {
        self.wf_fields() && self@.valid()
    }

    /// An empty builder for tiles of `unit_width` by `unit_height` pixels,
    /// found under `path`, on a transparent canvas of 4 by 4 tiles.
    pub fn new(path: String, unit_width: u32, unit_height: u32) -> (r: AtlasBuilder)
        requires
            unit_width > 0,
            unit_height > 0,
            4 * unit_width <= u32::MAX,
            4 * unit_height <= u32::MAX,
            (4 * unit_width) * (4 * unit_height) <= usize::MAX,
        ensures
            r.wf(),
            r@.path == path@,
            r@.unit_width == unit_width,
            r@.unit_height == unit_height,
            r@.canvas.width == 4 * unit_width,
            r@.canvas.height == 4 * unit_height,
            forall|i: int| 0 <= i < r@.canvas.pixels.len() ==> r@.canvas.pixels[i] == blank(),
            r@.names.len() == 0,
            r@.tiles.len() == 0,
            r@.completed == 0,
            r@.position == 0,
            r@.alpha_cache.is_empty(),
    {
        let image = PixelBuffer::new(4 * unit_width, 4 * unit_height);
        let r = AtlasBuilder {
            image,
            path,
            unit_width,
            unit_height,
            completed_tiles_size: 0,
            position: 0,
            names: Vec::new(),
            positions: Vec::new(),
            alpha_keys: Vec::new(),
            alpha_values: Vec::new(),
            tiles: Ghost(Seq::empty()),
            alpha_cache: Ghost(Map::empty()),
            span: Ghost(4),
        };
        proof {
            assert(r@.names =~= Seq::empty());
        }
        r
    }

    /// The load order of the tile called `name`, if it has been placed.
    fn find(&self, name: &String) -> (r: Option<usize>)
        requires
            self.wf(),
        ensures
            r matches Some(i) ==> i < self@.names.len() && i == self@.index_of(name@) && self@.has(
                name@,
            ),
            r is None ==> !self@.has(name@),
    {
        let mut i: usize = 0;
        while i < self.names.len()
            invariant
                self.wf(),
                i <= self.names@.len(),
                forall|k: int| 0 <= k < i ==> self@.names[k] != name@,
            decreases self.names@.len() - i,
        {
            if self.names[i].eq(name) {
                proof {
                    let j = self@.index_of(name@);
                    assert(self@.names[i as int] == name@);
                    assert(self@.has(name@));
                    assert(self@.names[j] == name@);
                }
                return Some(i);
            }
            i = i + 1;
        }
        None
    }

    /// Position, in pixels, of the tile called `name`, if it has been placed.
    pub fn position_of(&self, name: &str) -> (r: Option<(u32, u32)>)
        requires
            self.wf(),
        ensures
            r is Some <==> self@.has(name@),
            r matches Some(p) ==> (p.0 as int, p.1 as int) == self@.corner(
                self@.index_of(name@) as nat,
            ),
    {
        let key = name.to_owned();
        match self.find(&key) {
            Some(i) => Some(self.positions[i]),
            None => None,
        }
    }

    pub fn unit_width(&self) -> (r: u32)
        ensures
            r == self@.unit_width,
    {
        self.unit_width
    }

    pub fn unit_height(&self) -> (r: u32)
        ensures
            r == self@.unit_height,
    {
        self.unit_height
    }

    /// Directory that tile names are resolved in.
    pub fn path(&self) -> (r: &String)
        ensures
            r@ == self@.path,
    {
        &self.path
    }

    /// Places `tile`, the image decoded for `name`, in the next free slot and
    /// returns its position. A name placed before keeps its position and
    /// nothing changes. The tile must be one unit wide and a positive number
    /// of units high; only its top unit of rows is placed, and the number of
    /// further frames left out is reported.
    pub fn load(&mut self, name: &str, tile: &PixelBuffer) -> (r: Result<Placement, AtlasError>)
        requires
            old(self).wf(),
            tile.wf(),
        ensures
            final(self).wf(),
            old(self)@.has(name@) ==> final(self)@ == old(self)@ && (r matches Ok(p) && (
            p.x as int,
            p.y as int,
            ) == old(self)@.corner(old(self)@.index_of(name@) as nat) && p.ignored_frames == 0),
            !old(self)@.has(name@) && tile@.width != old(self)@.unit_width ==> final(self)@ == old(
                self,
            )@ && (r matches Err(AtlasError::TileWidthMismatch { name: n, expected, found })
                && n@ == name@ && expected == old(self)@.unit_width && found == tile@.width),
            !old(self)@.has(name@) && tile@.width == old(self)@.unit_width && (tile@.height == 0
                || tile@.height % old(self)@.unit_height != 0) ==> final(self)@ == old(self)@ && (
            r matches Err(AtlasError::TileHeightMismatch { name: n, unit, found }) && n@ == name@
                && unit == old(self)@.unit_height && found == tile@.height),
            !old(self)@.has(name@) && tile@.width == old(self)@.unit_width && tile@.height > 0
                && tile@.height % old(self)@.unit_height == 0 && old(self)@.needs_growth() && !old(
                self,
            )@.can_grow() ==> final(self)@ == old(self)@ && (r matches Err(
                AtlasError::AtlasFull { name: n },
            ) && n@ == name@),
            !old(self)@.has(name@) && tile@.width == old(self)@.unit_width && tile@.height > 0
                && tile@.height % old(self)@.unit_height == 0 && (!old(self)@.needs_growth() || old(
                self,
            )@.can_grow()) ==> (r matches Ok(p) && (p.x as int, p.y as int) == old(self)@.corner(
                old(self)@.names.len(),
            ) && p.ignored_frames == tile@.height / old(self)@.unit_height - 1) && old(
                self,
            )@.loads(name@, tile@, final(self)@),
    {
        let key = name.to_owned();
        match self.find(&key) {
            Some(i) => {
                let (x, y) = self.positions[i];
                return Ok(Placement { x, y, ignored_frames: 0 });
            },
            None => {},
        }
        let uw = self.unit_width;
        let uh = self.unit_height;
        let tw = tile.width();
        let th = tile.height();
        if tw != uw {
            return Err(AtlasError::TileWidthMismatch { name: key, expected: uw, found: tw });
        }
        if th == 0 || th % uh != 0 {
            return Err(AtlasError::TileHeightMismatch { name: key, unit: uh, found: th });
        }
        let ghost pre = self@;
        let ghost n = pre.names.len();
        let ghost span0 = self.span@;
        proof {
            lemma_ring_sizes(n);
            if th < uh {
                vstd::arithmetic::div_mod::lemma_small_mod(th as nat, uh as nat);
            }
            assert(span0 <= u32::MAX) by (nonlinear_arith)
                requires uw * span0 <= u32::MAX, uw >= 1;
        }
        let w = self.image.width();
        let h = self.image.height();
        let size = self.completed_tiles_size;
        let pos = self.position;
        proof {
            lemma_u32_product(uw, size);
            lemma_u32_product(uh, size);
        }
        if pos == 0 && ((uw as u64) * (size as u64) >= w as u64 || (uh as u64) * (size as u64)
            >= h as u64) {
            proof {
                assert((w as int * 2) * (h as int * 2) <= 0x4_0000_0000 * 0x4_0000_0000)
                    by (nonlinear_arith)
                    requires w <= u32::MAX, h <= u32::MAX, 0 <= w, 0 <= h;
            }
            if (w as u64) * 2 > u32::MAX as u64 || (h as u64) * 2 > u32::MAX as u64 || ((w as u128)
                * 2) * ((h as u128) * 2) > usize::MAX as u128 {
                return Err(AtlasError::AtlasFull { name: key });
            }
            self.image = self.image.enlarged(w * 2, h * 2);
            self.span = Ghost(2 * span0);
            proof {
                assert(2 * w == uw * (2 * span0)) by (nonlinear_arith)
                    requires w == uw * span0;
                assert(2 * h == uh * (2 * span0)) by (nonlinear_arith)
                    requires h == uh * span0;
            }
        } else {
            proof {
                if pos == 0 {
                    assert(size < span0) by (nonlinear_arith)
                        requires uw * size < w, w == uw * span0, uw > 0;
                }
            }
        }
        let ghost span1 = self.span@;
        let ghost grown = self@;
        assert(size < span1);
        let tx: u32;
        let ty: u32;
        if pos < size as u64 {
            tx = pos as u32;
            ty = size;
        } else {
            tx = size;
            ty = (pos - size as u64) as u32;
        }
        assert(slot(n) == (tx as nat, ty as nat));
        proof {
            assert(tx * uw + uw <= uw * span1) by (nonlinear_arith)
                requires tx + 1 <= span1, uw > 0;
            assert(ty * uh + uh <= uh * span1) by (nonlinear_arith)
                requires ty + 1 <= span1, uh > 0;
        }
        let px: u32 = tx * uw;
        let py: u32 = ty * uh;
        self.image.copy_region(tile, px, py, uw, uh);
        if pos + 1 >= 2 * (size as u64) + 1 {
            self.position = 0;
            self.completed_tiles_size = size + 1;
        } else {
            self.position = pos + 1;
        }
        self.names.push(key);
        self.positions.push((px, py));
        self.tiles = Ghost(self.tiles@.push(tile@));
        proof {
            assert(cursor_after(n + 1) == next_cursor(cursor_after(n)));
            assert(self@.names =~= pre.names.push(name@));
            assert(self@.corner(n) == pre.corner(n));
            assert forall|x: int, y: int| self@.canvas.inside(x, y) implies #[trigger] self@.canvas.at(
                x,
                y,
            ) == if Image::in_rect(
                x,
                y,
                pre.corner(n).0,
                pre.corner(n).1,
                uw as int,
                uh as int,
            ) {
                tile@.at(x - pre.corner(n).0, y - pre.corner(n).1)
            } else if pre.canvas.inside(x, y) {
                pre.canvas.at(x, y)
            } else {
                blank()
            } by {
                assert(grown.canvas.inside(x, y));
            }
            assert(pre.loads(name@, tile@, self@));
            assert forall|k: int| 0 <= k < self@.names.len() implies #[trigger] self@.fits(k as nat) by {
                if k < n {
                    assert(pre.fits(k as nat));
                }
            }
            lemma_load_keeps_tiles(pre, name@, tile@, self@);
            assert forall|i: int, j: int| 0 <= i < j < self@.names.len() implies self@.names[i]
                != self@.names[j] by {
                if j == n {
                    if self@.names[i] == name@ {
                        assert(pre.names[i] == name@);
                        assert(pre.has(name@));
                    }
                } else {
                    assert(pre.names[i] != pre.names[j]);
                }
            }
            assert forall|k: int| 0 <= k < self.positions@.len() implies (
            #[trigger] self.positions@[k].0 as int,
            self.positions@[k].1 as int,
            ) == self@.corner(k as nat) by {
                if k < n {
                    assert(pre.corner(k as nat) == self@.corner(k as nat));
                }
            }
        }
        Ok(Placement { x: px, y: py, ignored_frames: th / uh - 1 })
    }

    /// The least alpha over the rectangle `rect = [x, y, width, height]` of
    /// the canvas, 0 if it is empty. A rectangle asked before gets the value
    /// cached then, without a new scan.
    pub fn min_alpha(&mut self, rect: [u32; 4]) -> (r: u8)
        requires
            old(self).wf(),
            rect@[0] + rect@[2] <= old(self)@.canvas.width,
            rect@[1] + rect@[3] <= old(self)@.canvas.height,
        ensures
            final(self).wf(),
            old(self)@.alpha_cache.contains_key(rect_key(rect)) ==> r == old(self)@.alpha_cache[rect_key(rect)]
                && final(self)@ == old(self)@,
            !old(self)@.alpha_cache.contains_key(rect_key(rect)) ==> old(self)@.canvas.is_min_alpha(
                rect@[0] as int,
                rect@[1] as int,
                rect@[2] as int,
                rect@[3] as int,
                r,
            ) && final(self)@ == (AtlasModel {
                alpha_cache: old(self)@.alpha_cache.insert(rect_key(rect), r),
                ..old(self)@
            }),
            old(self)@.alpha_current(rect_key(rect)) ==> old(self)@.canvas.is_min_alpha(
                rect@[0] as int,
                rect@[1] as int,
                rect@[2] as int,
                rect@[3] as int,
                r,
            ) && final(self)@.alpha_current(rect_key(rect)),
    {
        let x = rect[0];
        let y = rect[1];
        let w = rect[2];
        let h = rect[3];
        let ghost key = rect_key(rect);
        let mut i: usize = 0;
        while i < self.alpha_keys.len()
            invariant
                self.wf(),
                *self == *old(self),
                key == (x, y, w, h),
                key == rect_key(rect),
                i <= self.alpha_keys@.len(),
                forall|j: int| 0 <= j < i ==> self.alpha_keys@[j] != key,
            decreases self.alpha_keys@.len() - i,
        {
            let k = self.alpha_keys[i];
            if k.0 == x && k.1 == y && k.2 == w && k.3 == h {
                proof {
                    assert(self.alpha_keys@[i as int] == key);
                    assert(self.alpha_cache@.contains_key(key));
                }
                return self.alpha_values[i];
            }
            i = i + 1;
        }
        proof {
            assert(!self.alpha_keys@.contains(key));
        }
        let m = self.image.min_alpha_in(x, y, w, h);
        let ghost pre = self@;
        self.alpha_keys.push((x, y, w, h));
        self.alpha_values.push(m);
        self.alpha_cache = Ghost(self.alpha_cache@.insert(key, m));
        proof {
            assert forall|k: RectKey| #[trigger] self.alpha_cache@.contains_key(k)
                <==> self.alpha_keys@.contains(k) by {
                if k != key && self.alpha_keys@.contains(k) {
                    let j = choose|j: int| 0 <= j < self.alpha_keys@.len() && self.alpha_keys@[j] == k;
                    assert(pre.alpha_cache.contains_key(k) <==> old(self).alpha_keys@.contains(k));
                    assert(old(self).alpha_keys@[j] == k);
                }
                if k == key {
                    assert(self.alpha_keys@[self.alpha_keys@.len() - 1] == key);
                }
                if k != key && old(self).alpha_keys@.contains(k) {
                    let j = choose|j: int| 0 <= j < old(self).alpha_keys@.len() && old(self).alpha_keys@[j] == k;
                    assert(self.alpha_keys@[j] == k);
                }
            }
            assert forall|a: int| 0 <= a < self.alpha_keys@.len() implies self.alpha_cache@[
                #[trigger] self.alpha_keys@[a]] == self.alpha_values@[a] by {
                if a < self.alpha_keys@.len() - 1 {
                    assert(old(self).alpha_keys@.contains(self.alpha_keys@[a]));
                }
            }
            assert(self@ == (AtlasModel { alpha_cache: pre.alpha_cache.insert(key, m), ..pre }));
            assert(self.wf_fields());
            assert forall|k: RectKey| #[trigger] self@.alpha_cache.contains_key(k) implies k.0 + k.2
                <= self@.canvas.width && k.1 + k.3 <= self@.canvas.height by {
                if k != key {
                    assert(pre.alpha_cache.contains_key(k));
                }
            }
            assert(self@.holds_tiles());
            assert forall|k: int| 0 <= k < self@.names.len() implies #[trigger] self@.fits(k as nat) by {
                assert(pre.fits(k as nat));
            }
        }
        m
    }

    /// Hands over the finished canvas.
    pub fn complete(self) -> (r: PixelBuffer)
        requires
            self.wf(),
        ensures
            r.wf(),
            r@ == self@.canvas,
    {
        self.image
    }
}

} // verus!
