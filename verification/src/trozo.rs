use vstd::prelude::*;

verus! {

/// Edge length of a chunk, in blocks.
pub const MIDA: usize = 64;

/// Number of blocks held by one chunk (`MIDA * MIDA * MIDA`).
pub const VOLUMEN: usize = 262144;

/// Number of vertices drawn for one visible block: six faces of two
/// triangles each.
pub const VERTICES_POR_BLOQUE: usize = 36;

/// Position inside a chunk's block array of the block at `(x, y, z)`:
/// layers of constant `y`, rows of constant `z`, `x` fastest.
pub open spec fn indice_bloque(x: int, y: int, z: int) -> int {
    MIDA * MIDA * y + MIDA * z + x
}

/// Column, in texels of a 256-texel-wide atlas, where the 32-texel-wide
/// texture of the block type `tipo` starts: types `1` to `8` are laid side by
/// side from column `0`.
pub fn principio_textura(tipo: u8) -> (r: u8)
    requires
        1 <= tipo <= 8,
    ensures
        r == (tipo - 1) * 32,
{
    (tipo - 1) * 32
}

/// Every position inside a chunk has its place in the block array, and
/// distinct positions have distinct places.
pub proof fn lema_indice_bloque(x: int, y: int, z: int, x2: int, y2: int, z2: int)
    requires
        0 <= x < MIDA,
        0 <= y < MIDA,
        0 <= z < MIDA,
        0 <= x2 < MIDA,
        0 <= y2 < MIDA,
        0 <= z2 < MIDA,
    ensures
        0 <= indice_bloque(x, y, z) < VOLUMEN,
        indice_bloque(x, y, z) == indice_bloque(x2, y2, z2) ==> (x == x2 && y == y2 && z == z2),
{
    assert(indice_bloque(x, y, z) == 4096 * y + 64 * z + x);
    assert(indice_bloque(x2, y2, z2) == 4096 * y2 + 64 * z2 + x2);
    if indice_bloque(x, y, z) == indice_bloque(x2, y2, z2) {
        assert(4096 * (y - y2) + 64 * (z - z2) + (x - x2) == 0);
        if y != y2 {
            assert(4096 * (y - y2) >= 4096 || 4096 * (y - y2) <= -4096);
        }
        assert(y == y2);
        if z != z2 {
            assert(64 * (z - z2) >= 64 || 64 * (z - z2) <= -64);
        }
    }
}

/// Reading a chunk after storing `v` at one position inside it gives `v` at
/// that position and the old type at every other position.
pub proof fn ley_trozo_leer_tras_escribir(
    bloques: Seq<u8>,
    x: int,
    y: int,
    z: int,
    v: u8,
    qx: int,
    qy: int,
    qz: int,
)
    requires
        bloques.len() == VOLUMEN,
        0 <= x < MIDA,
        0 <= y < MIDA,
        0 <= z < MIDA,
        0 <= qx < MIDA,
        0 <= qy < MIDA,
        0 <= qz < MIDA,
    ensures
        bloques.update(indice_bloque(x, y, z), v)[indice_bloque(qx, qy, qz)] == if x == qx && y == qy && z
            == qz {
            v
        } else {
            bloques[indice_bloque(qx, qy, qz)]
        },
{
    lema_indice_bloque(x, y, z, qx, qy, qz);
    lema_indice_bloque(qx, qy, qz, x, y, z);
}

/// Positions inside a chunk: each coordinate in `[0, MIDA)`.
pub open spec fn en_trozo(x: int, y: int, z: int) -> bool {
    0 <= x < MIDA && 0 <= y < MIDA && 0 <= z < MIDA
}

/// The type last stored at `(x, y, z)` by the writes `h`, each a position and
/// a type, in order; `previo` when none of them stored there.
pub open spec fn ultimo_escrito(h: Seq<(int, int, int, u8)>, x: int, y: int, z: int, previo: u8) -> u8
    decreases h.len(),
{
    if h.len() == 0 {
        previo
    } else if h.last().0 == x && h.last().1 == y && h.last().2 == z {
        h.last().3
    } else {
        ultimo_escrito(h.drop_last(), x, y, z, previo)
    }
}

/// A chunk's blocks `bloques` after the writes `h`, in order, as `set` makes
/// them.
pub open spec fn escribe_en_trozo(bloques: Seq<u8>, h: Seq<(int, int, int, u8)>) -> Seq<u8>
    decreases h.len(),
{
    if h.len() == 0 {
        bloques
    } else {
        let e = h.last();
        escribe_en_trozo(bloques, h.drop_last()).update(indice_bloque(e.0, e.1, e.2), e.3)
    }
}

/// After any sequence of writes at positions inside a chunk, reading a
/// position gives the type last written there, or what it held before when
/// nothing was written there: `0` for a chunk fresh from `Trozo::new`.
pub proof fn ley_trozo_historia(bloques: Seq<u8>, h: Seq<(int, int, int, u8)>, qx: int, qy: int, qz: int)
    requires
        bloques.len() == VOLUMEN,
        forall|i: int| 0 <= i < h.len() ==> en_trozo((#[trigger] h[i]).0, h[i].1, h[i].2),
        en_trozo(qx, qy, qz),
    ensures
        escribe_en_trozo(bloques, h).len() == VOLUMEN,
        escribe_en_trozo(bloques, h)[indice_bloque(qx, qy, qz)] == ultimo_escrito(
            h,
            qx,
            qy,
            qz,
            bloques[indice_bloque(qx, qy, qz)],
        ),
        (forall|j: int| 0 <= j < VOLUMEN ==> #[trigger] bloques[j] == 0) ==> escribe_en_trozo(bloques, h)[indice_bloque(
            qx,
            qy,
            qz,
        )] == ultimo_escrito(h, qx, qy, qz, 0),
    decreases h.len(),
{
    lema_indice_bloque(qx, qy, qz, qx, qy, qz);
    if h.len() > 0 {
        let previa = h.drop_last();
        assert forall|i: int| 0 <= i < previa.len() implies en_trozo((#[trigger] previa[i]).0, previa[i].1, previa[i].2) by {
            assert(previa[i] == h[i]);
        }
        ley_trozo_historia(bloques, previa, qx, qy, qz);
        let e = h.last();
        assert(en_trozo(h[h.len() - 1].0, h[h.len() - 1].1, h[h.len() - 1].2));
        ley_trozo_leer_tras_escribir(escribe_en_trozo(bloques, previa), e.0, e.1, e.2, e.3, qx, qy, qz);
    }
}

/// A cubic chunk of `MIDA³` blocks, each a block type (`0` is air), together
/// with the handle and size of the GPU mesh built for it, if any.
pub struct Trozo {
    bloques: Vec<u8>,
    pub n_vertices: usize,
    pub vbo: Option<u32>,
}

impl View for Trozo {
    type V = Seq<u8>;

    /// The chunk's block types, in the order given by `indice_bloque`.
    closed spec fn view(&self) -> Seq<u8> {
        self.bloques@
    }
}

impl Trozo {
    /// The chunk's mesh: its buffer handle, if one was built, and the number
    /// of vertices to draw from it.
    pub closed spec fn malla(&self) -> (Option<u32>, usize) {
        (self.vbo, self.n_vertices)
    }

    /// A chunk holds exactly `VOLUMEN` blocks.
    pub open spec fn wf(&self) -> bool {
        self@.len() == VOLUMEN
    }

    /// The block type at `(x, y, z)`. Coordinates are not checked one by one:
    /// only the position they give in the block array must exist.
    pub fn get(&self, x: usize, y: usize, z: usize) -> (r: u8)
        requires
            self.wf(),
            indice_bloque(x as int, y as int, z as int) < VOLUMEN,
        ensures
            r == self@[indice_bloque(x as int, y as int, z as int)],
    {
        self.bloques[MIDA * MIDA * y + MIDA * z + x]
    }

    /// Stores the block type `val` at `(x, y, z)`; nothing else changes.
    pub fn set(&mut self, x: usize, y: usize, z: usize, val: u8)
        requires
            old(self).wf(),
            indice_bloque(x as int, y as int, z as int) < VOLUMEN,
        ensures
            final(self)@ == old(self)@.update(indice_bloque(x as int, y as int, z as int), val),
            final(self).wf(),
            final(self).malla() == old(self).malla(),
    {
        self.bloques[MIDA * MIDA * y + MIDA * z + x] = val;
    }

    /// A chunk made only of air, with no mesh.
    pub fn new() -> (r: Trozo)
        ensures
            r.wf(),
            forall|i: int| 0 <= i < VOLUMEN ==> #[trigger] r@[i] == 0,
            r.malla() == (None::<u32>, 0usize),
    {
        let bloques: Vec<u8> = vec![0u8; MIDA * MIDA * MIDA];
        Trozo { bloques, vbo: None, n_vertices: 0 }
    }

    /// The draw call this chunk asks for: its mesh's buffer and vertex count,
    /// or `None` when no mesh has been built for it.
    pub fn dibuja(&self) -> (r: Option<(u32, usize)>)
        ensures
            r == match self.malla().0 {
                Some(vbo) => Some((vbo, self.malla().1)),
                None => None::<(u32, usize)>,
            },
    {
        match self.vbo {
            Some(vbo) => Some((vbo, self.n_vertices)),
            None => None,
        }
    }

    /// Records a freshly built mesh of `n_bloques` visible blocks held in the
    /// buffer `vbo`, and hands back the buffer it replaces, which the caller
    /// is to release.
    pub fn instala_malla(&mut self, vbo: u32, n_bloques: usize) -> (viejo: Option<u32>)
        requires
            0 < n_bloques,
            n_bloques * VERTICES_POR_BLOQUE <= usize::MAX,
        ensures
            viejo == old(self).malla().0,
            final(self).malla() == (Some(vbo), (n_bloques * VERTICES_POR_BLOQUE) as usize),
            final(self)@ == old(self)@,
    {
        let viejo = self.vbo;
        self.vbo = Some(vbo);
        self.n_vertices = n_bloques * VERTICES_POR_BLOQUE;
        viejo
    }
}

} // verus!
