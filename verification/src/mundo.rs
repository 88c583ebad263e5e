use vstd::prelude::*;

use crate::trozo::{self, en_trozo, indice_bloque, ultimo_escrito, Trozo, VERTICES_POR_BLOQUE, VOLUMEN};

verus! {

/// Edge length of the world, in chunks.
pub const MIDA_MUNDO: usize = 8;

/// Edge length of the world, in blocks.
pub const MIDA: usize = MIDA_MUNDO * trozo::MIDA;

/// Number of chunks in the world (`MIDA_MUNDO³`).
pub const NUM_TROZOS: usize = 512;

/// Position in the world's chunk list of the chunk with chunk coordinates
/// `(tx, ty, tz)`.
pub open spec fn indice_trozo(tx: int, ty: int, tz: int) -> int {
    tx + MIDA_MUNDO * MIDA_MUNDO * ty + MIDA_MUNDO * tz
}

/// The chunk that holds the block at world coordinates `(x, y, z)`.
pub open spec fn trozo_de(x: int, y: int, z: int) -> int {
    indice_trozo(x / trozo::MIDA as int, y / trozo::MIDA as int, z / trozo::MIDA as int)
}

/// The position, inside its chunk, of the block at world coordinates `(x, y, z)`.
pub open spec fn bloque_de(x: int, y: int, z: int) -> int {
    indice_bloque(x % trozo::MIDA as int, y % trozo::MIDA as int, z % trozo::MIDA as int)
}

/// World coordinates whose chunk exists. Coordinates are not checked one by
/// one: a coordinate past the world's edge still lands in some chunk as long
/// as the chunk's position in the list exists.
pub open spec fn direccion_valida(x: int, y: int, z: int) -> bool {
    &&& 0 <= x
    &&& 0 <= y
    &&& 0 <= z
    &&& trozo_de(x, y, z) < NUM_TROZOS
}

/// Coordinates inside the world's cube `[0, MIDA)³`.
pub open spec fn dentro(x: int, y: int, z: int) -> bool {
    0 <= x < MIDA && 0 <= y < MIDA && 0 <= z < MIDA
}

/// Block contents of a whole world: one sequence of block types per chunk.
pub open spec fn contenido_bien_formado(w: Seq<Seq<u8>>) -> bool {
    &&& w.len() == NUM_TROZOS
    &&& forall|i: int| 0 <= i < NUM_TROZOS ==> (#[trigger] w[i]).len() == VOLUMEN
}

/// The block type at `(x, y, z)` in the world contents `w`.
pub open spec fn celda_de(w: Seq<Seq<u8>>, x: int, y: int, z: int) -> u8 {
    w[trozo_de(x, y, z)][bloque_de(x, y, z)]
}

/// The world contents `w` after storing `v` at `(x, y, z)`.
pub open spec fn escribe(w: Seq<Seq<u8>>, x: int, y: int, z: int, v: u8) -> Seq<Seq<u8>> {
    w.update(trozo_de(x, y, z), w[trozo_de(x, y, z)].update(bloque_de(x, y, z), v))
}

/// The draw calls asked for by the first `n` chunks of `m`, in order: one
/// `(buffer, vertex count)` pair per chunk that has a mesh.
pub open spec fn llamadas(m: Seq<(Option<u32>, usize)>, n: nat) -> Seq<(u32, usize)>
    decreases n,
{
    if n == 0 {
        Seq::empty()
    } else {
        let previas = llamadas(m, (n - 1) as nat);
        match m[n - 1].0 {
            Some(vbo) => previas.push((vbo, m[n - 1].1)),
            None => previas,
        }
    }
}

/// The old buffers given up when the meshes of `plan` are installed over the
/// meshes `m` of the first `n` chunks, in chunk order: the buffer of each
/// chunk that had one and gets a new mesh.
pub open spec fn liberados(
    m: Seq<(Option<u32>, usize)>,
    plan: Seq<((usize, usize, usize), Vec<(usize, usize, usize, u8)>)>,
    n: nat,
) -> Seq<u32>
    decreases n,
{
    if n == 0 {
        Seq::empty()
    } else {
        let previos = liberados(m, plan, (n - 1) as nat);
        if plan[n - 1].1@.len() > 0 && m[n - 1].0 is Some {
            previos.push(m[n - 1].0->0)
        } else {
            previos
        }
    }
}

/// The mesh of a chunk after installing the plan entry `entrada` with the
/// buffer `buffer` over its mesh `antes`: a chunk with `k > 0` visible blocks
/// gets the buffer and `VERTICES_POR_BLOQUE * k` vertices; a chunk with none
/// keeps its mesh.
pub open spec fn malla_instalada(
    antes: (Option<u32>, usize),
    entrada: ((usize, usize, usize), Vec<(usize, usize, usize, u8)>),
    buffer: Option<u32>,
) -> (Option<u32>, usize) {
    if entrada.1@.len() > 0 {
        (buffer, (entrada.1@.len() * VERTICES_POR_BLOQUE) as usize)
    } else {
        antes
    }
}

/// World coordinates of the `i`-th block visited when walking the chunk with
/// chunk coordinates `(cx, cy, cz)`: `z` slowest, then `y`, `x` fastest.
pub open spec fn recorrido(cx: int, cy: int, cz: int, i: int) -> (int, int, int) {
    (
        cx * trozo::MIDA + i % trozo::MIDA as int,
        cy * trozo::MIDA + (i / trozo::MIDA as int) % trozo::MIDA as int,
        cz * trozo::MIDA + i / (trozo::MIDA * trozo::MIDA) as int,
    )
}

/// Chunk coordinates of the `k`-th chunk of the world, `k` being its position
/// in the chunk list.
pub open spec fn coordenadas_trozo(k: int) -> (int, int, int) {
    (k % MIDA_MUNDO as int, k / (MIDA_MUNDO * MIDA_MUNDO) as int, (k / MIDA_MUNDO as int) % MIDA_MUNDO as int)
}

/// Every block of the world's cube lies in an existing chunk.
pub proof fn lema_dentro_valida(x: int, y: int, z: int)
    requires
        dentro(x, y, z),
    ensures
        direccion_valida(x, y, z),
{
    assert(x / 64 < 8 && y / 64 < 8 && z / 64 < 8) by (nonlinear_arith)
        requires
            0 <= x < 512,
            0 <= y < 512,
            0 <= z < 512,
    ;
    assert(x / 64 >= 0 && y / 64 >= 0 && z / 64 >= 0) by (nonlinear_arith)
        requires
            0 <= x,
            0 <= y,
            0 <= z,
    ;
    assert(trozo_de(x, y, z) == x / 64 + 64 * (y / 64) + 8 * (z / 64));
}

/// Storing a block keeps the shape of the world contents, and reading a block
/// afterwards gives the stored type at the stored block's place and the old
/// type everywhere else.
pub proof fn ley_leer_tras_escribir(w: Seq<Seq<u8>>, x: int, y: int, z: int, v: u8, qx: int, qy: int, qz: int)
    requires
        contenido_bien_formado(w),
        direccion_valida(x, y, z),
        direccion_valida(qx, qy, qz),
    ensures
        contenido_bien_formado(escribe(w, x, y, z, v)),
        celda_de(escribe(w, x, y, z, v), qx, qy, qz) == if trozo_de(x, y, z) == trozo_de(qx, qy, qz)
            && bloque_de(x, y, z) == bloque_de(qx, qy, qz) {
            v
        } else {
            celda_de(w, qx, qy, qz)
        },
{
    trozo::lema_indice_bloque(x % 64, y % 64, z % 64, qx % 64, qy % 64, qz % 64);
    let e = escribe(w, x, y, z, v);
    assert forall|i: int| 0 <= i < NUM_TROZOS implies (#[trigger] e[i]).len() == VOLUMEN by {
        if i == trozo_de(x, y, z) {
            assert(e[i] == w[i].update(bloque_de(x, y, z), v));
        }
    }
}

/// The world contents `w` after the writes `h`, each world coordinates and a
/// type, in order, as `Mundo::set` makes them.
pub open spec fn escribe_historia(w: Seq<Seq<u8>>, h: Seq<(int, int, int, u8)>) -> Seq<Seq<u8>>
    decreases h.len(),
{
    if h.len() == 0 {
        w
    } else {
        let e = h.last();
        escribe(escribe_historia(w, h.drop_last()), e.0, e.1, e.2, e.3)
    }
}

/// After any sequence of writes inside the world's cube, reading a block of
/// the cube gives the type last written there, or what it held before when
/// nothing was written there: `0` for a world fresh from `Mundo::new`.
pub proof fn ley_historia(w: Seq<Seq<u8>>, h: Seq<(int, int, int, u8)>, qx: int, qy: int, qz: int)
    requires
        contenido_bien_formado(w),
        forall|i: int| 0 <= i < h.len() ==> dentro((#[trigger] h[i]).0, h[i].1, h[i].2),
        dentro(qx, qy, qz),
    ensures
        contenido_bien_formado(escribe_historia(w, h)),
        celda_de(escribe_historia(w, h), qx, qy, qz) == ultimo_escrito(h, qx, qy, qz, celda_de(w, qx, qy, qz)),
        (forall|i: int, j: int| 0 <= i < NUM_TROZOS && 0 <= j < VOLUMEN ==> #[trigger] w[i][j] == 0) ==> celda_de(
            escribe_historia(w, h),
            qx,
            qy,
            qz,
        ) == ultimo_escrito(h, qx, qy, qz, 0),
    decreases h.len(),
{
    lema_dentro_valida(qx, qy, qz);
    trozo::lema_indice_bloque(qx % 64, qy % 64, qz % 64, qx % 64, qy % 64, qz % 64);
    if h.len() > 0 {
        let previa = h.drop_last();
        assert forall|i: int| 0 <= i < previa.len() implies dentro((#[trigger] previa[i]).0, previa[i].1, previa[i].2) by {
            assert(previa[i] == h[i]);
        }
        ley_historia(w, previa, qx, qy, qz);
        let e = h.last();
        assert(dentro(h[h.len() - 1].0, h[h.len() - 1].1, h[h.len() - 1].2));
        lema_dentro_valida(e.0, e.1, e.2);
        ley_leer_tras_escribir(escribe_historia(w, previa), e.0, e.1, e.2, e.3, qx, qy, qz);
        ley_direcciones_distintas(e.0, e.1, e.2, qx, qy, qz);
    }
}

/// Writing position `(px, py, pz)` of the chunk with chunk coordinates
/// `(cx, cy, cz)`, as `get_mut_chunk_by_idx` followed by `Trozo::set` does,
/// is writing the world's block `(MIDA * cx + px, MIDA * cy + py, MIDA * cz + pz)`.
pub proof fn ley_escritura_por_trozo(
    w: Seq<Seq<u8>>,
    cx: int,
    cy: int,
    cz: int,
    px: int,
    py: int,
    pz: int,
    v: u8,
)
    requires
        0 <= cx < MIDA_MUNDO,
        0 <= cy < MIDA_MUNDO,
        0 <= cz < MIDA_MUNDO,
        en_trozo(px, py, pz),
    ensures
        dentro(64 * cx + px, 64 * cy + py, 64 * cz + pz),
        escribe(w, 64 * cx + px, 64 * cy + py, 64 * cz + pz, v) == w.update(
            indice_trozo(cx, cy, cz),
            w[indice_trozo(cx, cy, cz)].update(indice_bloque(px, py, pz), v),
        ),
{
    assert((64 * cx + px) / 64 == cx && (64 * cx + px) % 64 == px) by (nonlinear_arith)
        requires
            0 <= cx,
            0 <= px < 64,
    ;
    assert((64 * cy + py) / 64 == cy && (64 * cy + py) % 64 == py) by (nonlinear_arith)
        requires
            0 <= cy,
            0 <= py < 64,
    ;
    assert((64 * cz + pz) / 64 == cz && (64 * cz + pz) % 64 == pz) by (nonlinear_arith)
        requires
            0 <= cz,
            0 <= pz < 64,
    ;
}

/// Distinct blocks of the world's cube have distinct places: a different
/// chunk, or a different position inside the same chunk.
pub proof fn ley_direcciones_distintas(x: int, y: int, z: int, qx: int, qy: int, qz: int)
    requires
        dentro(x, y, z),
        dentro(qx, qy, qz),
    ensures
        (trozo_de(x, y, z) == trozo_de(qx, qy, qz) && bloque_de(x, y, z) == bloque_de(qx, qy, qz))
            <==> (x == qx && y == qy && z == qz),
{
    lema_dentro_valida(x, y, z);
    lema_dentro_valida(qx, qy, qz);
    trozo::lema_indice_bloque(x % 64, y % 64, z % 64, qx % 64, qy % 64, qz % 64);
    assert(trozo_de(x, y, z) == x / 64 + 64 * (y / 64) + 8 * (z / 64));
    assert(trozo_de(qx, qy, qz) == qx / 64 + 64 * (qy / 64) + 8 * (qz / 64));
    if trozo_de(x, y, z) == trozo_de(qx, qy, qz) && bloque_de(x, y, z) == bloque_de(qx, qy, qz) {
        let (a, b, c) = (x / 64, y / 64, z / 64);
        let (qa, qb, qc) = (qx / 64, qy / 64, qz / 64);
        assert(0 <= a < 8 && 0 <= b < 8 && 0 <= c < 8 && 0 <= qa < 8 && 0 <= qb < 8 && 0 <= qc < 8) by (nonlinear_arith)
            requires
                0 <= x < 512,
                0 <= y < 512,
                0 <= z < 512,
                0 <= qx < 512,
                0 <= qy < 512,
                0 <= qz < 512,
                a == x / 64,
                b == y / 64,
                c == z / 64,
                qa == qx / 64,
                qb == qy / 64,
                qc == qz / 64,
        ;
        assert(a + 64 * b + 8 * c == qa + 64 * qb + 8 * qc);
        if b != qb {
            assert(64 * (b - qb) >= 64 || 64 * (b - qb) <= -64);
        }
        if c != qc {
            assert(8 * (c - qc) >= 8 || 8 * (c - qc) <= -8);
        }
        assert(x == 64 * (x / 64) + x % 64 && qx == 64 * (qx / 64) + qx % 64) by (nonlinear_arith);
        assert(y == 64 * (y / 64) + y % 64 && qy == 64 * (qy / 64) + qy % 64) by (nonlinear_arith);
        assert(z == 64 * (z / 64) + z % 64 && qz == 64 * (qz / 64) + qz % 64) by (nonlinear_arith);
    }
}

/// The draw calls of the first `n` chunks are at most `n`; each comes from a
/// chunk that has a mesh, with that mesh's buffer and vertex count; each
/// chunk with a mesh gives one; and chunks without meshes give none.
pub proof fn ley_llamadas(m: Seq<(Option<u32>, usize)>, n: nat)
    requires
        n <= m.len(),
    ensures
        llamadas(m, n).len() <= n,
        forall|k: int|
            #![trigger llamadas(m, n)[k]]
            0 <= k < llamadas(m, n).len() ==> exists|i: int|
                0 <= i < n && #[trigger] m[i] == (Some(llamadas(m, n)[k].0), llamadas(m, n)[k].1),
        forall|i: int|
            0 <= i < n && (#[trigger] m[i]).0 is Some ==> exists|k: int|
                0 <= k < llamadas(m, n).len() && llamadas(m, n)[k] == (m[i].0->0, m[i].1),
        (forall|i: int| 0 <= i < n ==> (#[trigger] m[i]).0 is None) ==> llamadas(m, n).len() == 0,
    decreases n,
{
    if n > 0 {
        ley_llamadas(m, (n - 1) as nat);
        let previas = llamadas(m, (n - 1) as nat);
        let todas = llamadas(m, n);
        assert forall|k: int| #![trigger todas[k]] 0 <= k < todas.len() implies exists|i: int|
            0 <= i < n && #[trigger] m[i] == (Some(todas[k].0), todas[k].1) by {
            if k < previas.len() {
                assert(todas[k] == previas[k]);
            } else {
                assert(m[n - 1] == (Some(todas[k].0), todas[k].1));
            }
        }
        assert forall|i: int| 0 <= i < n && (#[trigger] m[i]).0 is Some implies exists|k: int|
            #![trigger todas[k]]
            0 <= k < todas.len() && todas[k] == (m[i].0->0, m[i].1) by {
            if i < n - 1 {
                let k = choose|k: int| 0 <= k < previas.len() && previas[k] == (m[i].0->0, m[i].1);
                assert(todas[k] == previas[k]);
            } else {
                assert(todas[previas.len() as int] == (m[i].0->0, m[i].1));
            }
        }
    }
}

/// Whether the block `(nx, ny, nz)` is one of the six blocks that share a face
/// with `(x, y, z)`.
pub open spec fn son_vecinos(x: int, y: int, z: int, nx: int, ny: int, nz: int) -> bool {
    let dx = if nx >= x { nx - x } else { x - nx };
    let dy = if ny >= y { ny - y } else { y - ny };
    let dz = if nz >= z { nz - z } else { z - nz };
    dx + dy + dz == 1
}

/// Installing meshes gives back old buffers exactly for the chunks that had a
/// buffer and get a new mesh, whatever the vertex counts: the returned
/// `origen` lists those chunks in increasing order, one per buffer handed
/// back, buffer `k` being the old buffer of chunk `origen[k]`; every such
/// chunk is listed, and no other.
pub proof fn ley_liberados(
    m: Seq<(Option<u32>, usize)>,
    plan: Seq<((usize, usize, usize), Vec<(usize, usize, usize, u8)>)>,
    n: nat,
) -> (origen: Seq<int>)
    requires
        n <= m.len(),
        n <= plan.len(),
    ensures
        origen.len() == liberados(m, plan, n).len(),
        forall|a: int, b: int| 0 <= a < b < origen.len() ==> origen[a] < origen[b],
        forall|k: int|
            0 <= k < origen.len() ==> {
                let i = #[trigger] origen[k];
                &&& 0 <= i < n
                &&& plan[i].1@.len() > 0
                &&& m[i].0 == Some(liberados(m, plan, n)[k])
            },
        forall|i: int|
            0 <= i < n && plan[i].1@.len() > 0 && (#[trigger] m[i]).0 is Some ==> origen.contains(i),
    decreases n,
{
    if n == 0 {
        Seq::empty()
    } else {
        let previo = ley_liberados(m, plan, (n - 1) as nat);
        let i = n - 1;
        if plan[i].1@.len() > 0 && m[i].0 is Some {
            let origen = previo.push(i);
            assert forall|j: int|
                0 <= j < n && plan[j].1@.len() > 0 && (#[trigger] m[j]).0 is Some implies origen.contains(j) by {
                if j < i {
                    let k = choose|k: int| 0 <= k < previo.len() && previo[k] == j;
                    assert(origen[k] == j);
                } else {
                    assert(origen[previo.len() as int] == j);
                }
            }
            assert forall|k: int| 0 <= k < origen.len() implies {
                let i2 = #[trigger] origen[k];
                &&& 0 <= i2 < n
                &&& plan[i2].1@.len() > 0
                &&& m[i2].0 == Some(liberados(m, plan, n)[k])
            } by {
                if k < previo.len() {
                    assert(origen[k] == previo[k]);
                }
            }
            origen
        } else {
            assert forall|j: int|
                0 <= j < n && plan[j].1@.len() > 0 && (#[trigger] m[j]).0 is Some implies previo.contains(j) by {
            }
            previo
        }
    }
}

/// The world: `MIDA_MUNDO³` chunks.
pub struct Mundo {
    trozos: Vec<Trozo>,
}

impl View for Mundo {
    type V = Seq<Seq<u8>>;

    /// The block contents of every chunk, in the order of `indice_trozo`.
    open spec fn view(&self) -> Seq<Seq<u8>> {
        self.trozos().map_values(|t: Trozo| t@)
    }
}

impl Mundo {
    /// The world's chunks, in the order of `indice_trozo`.
    pub closed spec fn trozos(&self) -> Seq<Trozo> {
        self.trozos@
    }

    /// The mesh of every chunk, in the order of `indice_trozo`.
    pub open spec fn mallas(&self) -> Seq<(Option<u32>, usize)> {
        self.trozos().map_values(|t: Trozo| t.malla())
    }

    /// A world holds `NUM_TROZOS` chunks of `VOLUMEN` blocks each.
    pub open spec fn wf(&self) -> bool {
        &&& self.trozos().len() == NUM_TROZOS
        &&& forall|i: int| 0 <= i < NUM_TROZOS ==> (#[trigger] self.trozos()[i]).wf()
    }

    /// The block type at world coordinates `(x, y, z)`.
    pub open spec fn celda(&self, x: int, y: int, z: int) -> u8 {
        celda_de(self@, x, y, z)
    }

    /// The rule of `touches_air`: one of the six neighbours that lie inside
    /// the world's range on each axis is air. Neighbours are looked at in the
    /// order `+x`, `-x`, `+y`, `-y`, `+z`, `-z`.
    pub open spec fn toca_aire(&self, x: int, y: int, z: int) -> bool {
        ||| (x < MIDA - 1 && self.celda(x + 1, y, z) == 0)
        ||| (x > 0 && self.celda(x - 1, y, z) == 0)
        ||| (y < MIDA - 1 && self.celda(x, y + 1, z) == 0)
        ||| (y > 0 && self.celda(x, y - 1, z) == 0)
        ||| (z < MIDA - 1 && self.celda(x, y, z + 1) == 0)
        ||| (z > 0 && self.celda(x, y, z - 1) == 0)
    }

    /// Every neighbour that `touches_air` reads, in its order and stopping at
    /// the first air found, lies in an existing chunk.
    pub open spec fn toca_aire_definido(&self, x: int, y: int, z: int) -> bool {
        let a1 = x < MIDA - 1 && self.celda(x + 1, y, z) == 0;
        let a2 = x > 0 && self.celda(x - 1, y, z) == 0;
        let a3 = y < MIDA - 1 && self.celda(x, y + 1, z) == 0;
        let a4 = y > 0 && self.celda(x, y - 1, z) == 0;
        let a5 = z < MIDA - 1 && self.celda(x, y, z + 1) == 0;
        &&& x < MIDA - 1 ==> direccion_valida(x + 1, y, z)
        &&& (!a1 && x > 0) ==> direccion_valida(x - 1, y, z)
        &&& (!a1 && !a2 && y < MIDA - 1) ==> direccion_valida(x, y + 1, z)
        &&& (!a1 && !a2 && !a3 && y > 0) ==> direccion_valida(x, y - 1, z)
        &&& (!a1 && !a2 && !a3 && !a4 && z < MIDA - 1) ==> direccion_valida(x, y, z + 1)
        &&& (!a1 && !a2 && !a3 && !a4 && !a5 && z > 0) ==> direccion_valida(x, y, z - 1)
    }

    /// A block is visible when it is not air and touches air.
    pub open spec fn es_visible(&self, x: int, y: int, z: int) -> bool {
        self.celda(x, y, z) != 0 && self.toca_aire(x, y, z)
    }

    /// Every block that the walk of chunk `(cx, cy, cz)` reads lies in an
    /// existing chunk, and so does every neighbour read to tell whether a
    /// solid one touches air.
    pub open spec fn trozo_recorrible(&self, cx: int, cy: int, cz: int) -> bool {
        forall|i: int|
            0 <= i < VOLUMEN ==> {
                let p = #[trigger] recorrido(cx, cy, cz, i);
                &&& direccion_valida(p.0, p.1, p.2)
                &&& self.celda(p.0, p.1, p.2) != 0 ==> self.toca_aire_definido(p.0, p.1, p.2)
            }
    }

    /// Whether the `i`-th block of the walk of chunk `(cx, cy, cz)` is visible.
    #[verifier::opaque]
    pub open spec fn visible_en(&self, cx: int, cy: int, cz: int, i: int) -> bool {
        let p = recorrido(cx, cy, cz, i);
        self.es_visible(p.0, p.1, p.2)
    }

    /// How the `i`-th block of the walk of chunk `(cx, cy, cz)` is listed
    /// among the visible blocks: its world coordinates and its type.
    #[verifier::opaque]
    pub open spec fn entrada(&self, cx: int, cy: int, cz: int, i: int) -> (usize, usize, usize, u8) {
        let p = recorrido(cx, cy, cz, i);
        (p.0 as usize, p.1 as usize, p.2 as usize, self.celda(p.0, p.1, p.2))
    }

    /// The visible blocks among the first `n` blocks of the walk of chunk
    /// `(cx, cy, cz)`, in walk order, each with its world coordinates and type.
    pub open spec fn visibles(&self, cx: int, cy: int, cz: int, n: nat) -> Seq<(usize, usize, usize, u8)>
        decreases n,
    {
        if n == 0 {
            Seq::empty()
        } else {
            let previas = self.visibles(cx, cy, cz, (n - 1) as nat);
            if self.visible_en(cx, cy, cz, n - 1) {
                previas.push(self.entrada(cx, cy, cz, n - 1))
            } else {
                previas
            }
        }
    }
}

impl Mundo {
    /// A world made only of air, with no meshes.
    pub fn new() -> (r: Mundo)
        ensures
            r.wf(),
            forall|i: int, j: int| 0 <= i < NUM_TROZOS && 0 <= j < VOLUMEN ==> #[trigger] r@[i][j] == 0,
            forall|i: int| 0 <= i < NUM_TROZOS ==> #[trigger] r.mallas()[i] == (None::<u32>, 0usize),
    {
        let mut trozos: Vec<Trozo> = Vec::with_capacity(MIDA_MUNDO * MIDA_MUNDO * MIDA_MUNDO);
        let mut k: usize = 0;
        while k < MIDA_MUNDO * MIDA_MUNDO * MIDA_MUNDO
            invariant
                k <= NUM_TROZOS,
                trozos@.len() == k,
                forall|i: int| 0 <= i < k ==> (#[trigger] trozos@[i]).wf(),
                forall|i: int, j: int| 0 <= i < k && 0 <= j < VOLUMEN ==> #[trigger] trozos@[i]@[j] == 0,
                forall|i: int| 0 <= i < k ==> #[trigger] trozos@[i].malla() == (None::<u32>, 0usize),
            decreases NUM_TROZOS - k,
        {
            trozos.push(Trozo::new());
            k = k + 1;
        }
        Mundo { trozos }
    }

    /// The block type at world coordinates `(x, y, z)`.
    pub fn get(&self, x: usize, y: usize, z: usize) -> (r: u8)
        requires
            self.wf(),
            direccion_valida(x as int, y as int, z as int),
        ensures
            r == self.celda(x as int, y as int, z as int),
    {
        let trozo_x = x / trozo::MIDA;
        let trozo_y = y / trozo::MIDA;
        let trozo_z = z / trozo::MIDA;

        let x = x % trozo::MIDA;
        let y = y % trozo::MIDA;
        let z = z % trozo::MIDA;

        proof {
            trozo::lema_indice_bloque(x as int, y as int, z as int, x as int, y as int, z as int);
        }
        self.trozos[trozo_x + MIDA_MUNDO * MIDA_MUNDO * trozo_y + MIDA_MUNDO * trozo_z].get(x, y, z)
    }

    /// The chunk with chunk coordinates `(idx_x, idx_y, idx_z)`, to modify.
    pub fn get_mut_chunk_by_idx(&mut self, idx_x: usize, idx_y: usize, idx_z: usize) -> (r: &mut Trozo)
        requires
            old(self).wf(),
            indice_trozo(idx_x as int, idx_y as int, idx_z as int) < NUM_TROZOS,
        ensures
            *r == old(self).trozos()[indice_trozo(idx_x as int, idx_y as int, idx_z as int)],
            final(self).trozos() == old(self).trozos().update(
                indice_trozo(idx_x as int, idx_y as int, idx_z as int),
                *final(r),
            ),
    {
        &mut self.trozos[idx_x + MIDA_MUNDO * MIDA_MUNDO * idx_y + MIDA_MUNDO * idx_z]
    }

    /// The chunk with chunk coordinates `(idx_x, idx_y, idx_z)`.
    pub fn get_chunk_by_idx(&self, idx_x: usize, idx_y: usize, idx_z: usize) -> (r: &Trozo)
        requires
            self.wf(),
            indice_trozo(idx_x as int, idx_y as int, idx_z as int) < NUM_TROZOS,
        ensures
            *r == self.trozos()[indice_trozo(idx_x as int, idx_y as int, idx_z as int)],
    {
        &self.trozos[idx_x + MIDA_MUNDO * MIDA_MUNDO * idx_y + MIDA_MUNDO * idx_z]
    }

    /// Stores the block type `val` at world coordinates `(x, y, z)`; no other
    /// block and no mesh changes.
    pub fn set(&mut self, x: usize, y: usize, z: usize, val: u8)
        requires
            old(self).wf(),
            direccion_valida(x as int, y as int, z as int),
        ensures
            final(self).wf(),
            final(self)@ == escribe(old(self)@, x as int, y as int, z as int, val),
            final(self).mallas() == old(self).mallas(),
    {
        let trozo_x = x / trozo::MIDA;
        let trozo_y = y / trozo::MIDA;
        let trozo_z = z / trozo::MIDA;

        let x = x % trozo::MIDA;
        let y = y % trozo::MIDA;
        let z = z % trozo::MIDA;

        let ghost antes = self.trozos@;
        proof {
            trozo::lema_indice_bloque(x as int, y as int, z as int, x as int, y as int, z as int);
        }
        let i = trozo_x + MIDA_MUNDO * trozo_z + MIDA_MUNDO * MIDA_MUNDO * trozo_y;
        self.trozos[i].set(x, y, z, val);
        proof {
            assert(self.trozos@ == antes.update(i as int, self.trozos@[i as int]));
            assert forall|k: int| 0 <= k < NUM_TROZOS implies (#[trigger] self.trozos()[k]).wf() by {
                if k != i {
                    assert(self.trozos()[k] == antes[k]);
                }
            }
            assert(self@ =~= escribe(old(self)@, x as int + trozo_x * trozo::MIDA, y as int + trozo_y * trozo::MIDA, z as int + trozo_z * trozo::MIDA, val));
            assert(self.mallas() =~= old(self).mallas());
        }
    }

    /// Whether the block at `(x, y, z)` has air as a neighbour, among the
    /// neighbours that lie inside the world's range on each axis.
    pub fn touches_air(&self, x: usize, y: usize, z: usize) -> (r: bool)
        requires
            self.wf(),
            self.toca_aire_definido(x as int, y as int, z as int),
        ensures
            r == self.toca_aire(x as int, y as int, z as int),
    {
        (x < MIDA - 1 && self.get(x + 1, y, z) == 0)
            || (x > 0 && self.get(x - 1, y, z) == 0)
            || (y < MIDA - 1 && self.get(x, y + 1, z) == 0)
            || (y > 0 && self.get(x, y - 1, z) == 0)
            || (z < MIDA - 1 && self.get(x, y, z + 1) == 0)
            || (z > 0 && self.get(x, y, z - 1) == 0)
    }

    /// Every neighbour that `touches_air` may read of a block of the world's
    /// cube lies in an existing chunk.
    pub proof fn lema_dentro_definido(&self, x: int, y: int, z: int)
        requires
            dentro(x, y, z),
        ensures
            self.toca_aire_definido(x, y, z),
    {
        if x < MIDA - 1 {
            lema_dentro_valida(x + 1, y, z);
        }
        if x > 0 {
            lema_dentro_valida(x - 1, y, z);
        }
        if y < MIDA - 1 {
            lema_dentro_valida(x, y + 1, z);
        }
        if y > 0 {
            lema_dentro_valida(x, y - 1, z);
        }
        if z < MIDA - 1 {
            lema_dentro_valida(x, y, z + 1);
        }
        if z > 0 {
            lema_dentro_valida(x, y, z - 1);
        }
    }

    /// The walk of any chunk of the world reads only existing chunks.
    pub proof fn lema_trozo_recorrible(&self, cx: int, cy: int, cz: int)
        requires
            0 <= cx < MIDA_MUNDO,
            0 <= cy < MIDA_MUNDO,
            0 <= cz < MIDA_MUNDO,
        ensures
            self.trozo_recorrible(cx, cy, cz),
    {
        assert forall|i: int| 0 <= i < VOLUMEN implies {
            let p = #[trigger] recorrido(cx, cy, cz, i);
            &&& direccion_valida(p.0, p.1, p.2)
            &&& self.celda(p.0, p.1, p.2) != 0 ==> self.toca_aire_definido(p.0, p.1, p.2)
        } by {
            let p = recorrido(cx, cy, cz, i);
            assert(0 <= i % 64 < 64 && 0 <= (i / 64) % 64 < 64 && 0 <= i / 4096 < 64) by (nonlinear_arith)
                requires
                    0 <= i < 262144,
            ;
            assert(dentro(p.0, p.1, p.2));
            lema_dentro_valida(p.0, p.1, p.2);
            self.lema_dentro_definido(p.0, p.1, p.2);
        }
    }

    /// The visible blocks of the chunk with chunk coordinates `chunk`, in the
    /// order in which the chunk is walked: `z` slowest, then `y`, `x` fastest.
    /// Each comes with its world coordinates and its block type; these are
    /// what the chunk's mesh is built from, one cube per block.
    pub fn bloques_visibles(&self, chunk: (usize, usize, usize)) -> (r: Vec<(usize, usize, usize, u8)>)
        requires
            self.wf(),
            self.trozo_recorrible(chunk.0 as int, chunk.1 as int, chunk.2 as int),
        ensures
            r@ == self.visibles(chunk.0 as int, chunk.1 as int, chunk.2 as int, VOLUMEN as nat),
    {
        let ghost (cx, cy, cz) = (chunk.0 as int, chunk.1 as int, chunk.2 as int);
        proof {
            let p = recorrido(cx, cy, cz, 0);
            assert(direccion_valida(p.0, p.1, p.2));
            assert((cx * 64) / 64 == cx && (cy * 64) / 64 == cy && (cz * 64) / 64 == cz) by (nonlinear_arith)
                requires
                    cx >= 0,
                    cy >= 0,
                    cz >= 0,
            ;
            assert(trozo_de(p.0, p.1, p.2) == cx + 64 * cy + 8 * cz);
        }
        let x0 = chunk.0 * trozo::MIDA;
        let y0 = chunk.1 * trozo::MIDA;
        let z0 = chunk.2 * trozo::MIDA;
        let mut vertices: Vec<(usize, usize, usize, u8)> = Vec::new();
        let mut i: usize = 0;
        while i < VOLUMEN
            invariant
                self.wf(),
                self.trozo_recorrible(cx, cy, cz),
                cx == chunk.0,
                cy == chunk.1,
                cz == chunk.2,
                x0 == cx * 64,
                y0 == cy * 64,
                z0 == cz * 64,
                x0 < 32768,
                y0 < 32768,
                z0 < 32768,
                i <= VOLUMEN,
                vertices@ == self.visibles(cx, cy, cz, i as nat),
            decreases VOLUMEN - i,
        {
            let x = x0 + i % trozo::MIDA;
            let y = y0 + (i / trozo::MIDA) % trozo::MIDA;
            let z = z0 + i / (trozo::MIDA * trozo::MIDA);
            let ghost p = recorrido(cx, cy, cz, i as int);
            assert(p == (x as int, y as int, z as int));
            proof {
                reveal(Mundo::visible_en);
                reveal(Mundo::entrada);
            }
            if self.get(x, y, z) != 0 && self.touches_air(x, y, z) {
                let tipo = self.get(x, y, z);
                vertices.push((x, y, z, tipo));
            }
            i = i + 1;
        }
        vertices
    }

    /// The mesh contents of every chunk of the world, in the order in which
    /// the chunks are visited (`y` slowest, then `z`, `x` fastest), which is
    /// the order of the chunk list: for each chunk, its chunk coordinates and
    /// its visible blocks as `bloques_visibles` gives them.
    pub fn genera_todas_las_mallas(&self) -> (r: Vec<((usize, usize, usize), Vec<(usize, usize, usize, u8)>)>)
        requires
            self.wf(),
        ensures
            r@.len() == NUM_TROZOS,
            forall|k: int|
                0 <= k < NUM_TROZOS ==> {
                    let c = coordenadas_trozo(k);
                    &&& (#[trigger] r@[k]).0 == (c.0 as usize, c.1 as usize, c.2 as usize)
                    &&& r@[k].1@ == self.visibles(c.0, c.1, c.2, VOLUMEN as nat)
                    &&& indice_trozo(c.0, c.1, c.2) == k
                },
    {
        let mut mallas: Vec<((usize, usize, usize), Vec<(usize, usize, usize, u8)>)> = Vec::new();
        let mut k: usize = 0;
        while k < MIDA_MUNDO * MIDA_MUNDO * MIDA_MUNDO
            invariant
                self.wf(),
                k <= NUM_TROZOS,
                mallas@.len() == k,
                forall|j: int|
                    0 <= j < k ==> {
                        let c = coordenadas_trozo(j);
                        &&& (#[trigger] mallas@[j]).0 == (c.0 as usize, c.1 as usize, c.2 as usize)
                        &&& mallas@[j].1@ == self.visibles(c.0, c.1, c.2, VOLUMEN as nat)
                        &&& indice_trozo(c.0, c.1, c.2) == j
                    },
            decreases NUM_TROZOS - k,
        {
            let x = k % MIDA_MUNDO;
            let y = k / (MIDA_MUNDO * MIDA_MUNDO);
            let z = (k / MIDA_MUNDO) % MIDA_MUNDO;
            proof {
                assert(x + 64 * y + 8 * z == k) by (nonlinear_arith)
                    requires
                        x == k % 8,
                        y == k / 64,
                        z == (k / 8) % 8,
                        0 <= k < 512,
                ;
                assert(y < 8) by (nonlinear_arith)
                    requires
                        y == k / 64,
                        0 <= k < 512,
                ;
                self.lema_trozo_recorrible(x as int, y as int, z as int);
            }
            let visibles = self.bloques_visibles((x, y, z));
            mallas.push(((x, y, z), visibles));
            k = k + 1;
        }
        mallas
    }

    /// The visible blocks that the mesh of the chunk with chunk coordinates
    /// `chunk` is built from, as `bloques_visibles` gives them, or `None` when
    /// `chunk` is not one of the world's `MIDA_MUNDO³` chunks.
    pub fn genera_mallas_de_trozo(&self, chunk: (usize, usize, usize)) -> (r: Option<Vec<(usize, usize, usize, u8)>>)
        requires
            self.wf(),
        ensures
            r is Some <==> (chunk.0 < MIDA_MUNDO && chunk.1 < MIDA_MUNDO && chunk.2 < MIDA_MUNDO),
            r matches Some(v) ==> v@ == self.visibles(chunk.0 as int, chunk.1 as int, chunk.2 as int, VOLUMEN as nat),
    {
        if chunk.0 < MIDA_MUNDO && chunk.1 < MIDA_MUNDO && chunk.2 < MIDA_MUNDO {
            proof {
                self.lema_trozo_recorrible(chunk.0 as int, chunk.1 as int, chunk.2 as int);
            }
            Some(self.bloques_visibles(chunk))
        } else {
            None
        }
    }

    /// Records the mesh of the chunk with chunk coordinates `chunk`, built
    /// from `n_bloques` visible blocks and uploaded to `vbo`, which is present
    /// exactly when there is something to draw. A chunk with visible blocks
    /// gets the buffer and `VERTICES_POR_BLOQUE * n_bloques` vertices, and the
    /// buffer it replaces is handed back for the caller to release; a chunk
    /// with none keeps its mesh and nothing is handed back. No block and no
    /// other chunk's mesh changes.
    pub fn instala_malla(&mut self, chunk: (usize, usize, usize), vbo: Option<u32>, n_bloques: usize) -> (viejo: Option<u32>)
        requires
            old(self).wf(),
            indice_trozo(chunk.0 as int, chunk.1 as int, chunk.2 as int) < NUM_TROZOS,
            vbo is Some <==> n_bloques > 0,
            n_bloques * VERTICES_POR_BLOQUE <= usize::MAX,
        ensures
            final(self).wf(),
            final(self)@ == old(self)@,
            viejo == if n_bloques > 0 {
                old(self).mallas()[indice_trozo(chunk.0 as int, chunk.1 as int, chunk.2 as int)].0
            } else {
                None::<u32>
            },
            final(self).mallas() == if n_bloques > 0 {
                old(self).mallas().update(
                    indice_trozo(chunk.0 as int, chunk.1 as int, chunk.2 as int),
                    (vbo, (n_bloques * VERTICES_POR_BLOQUE) as usize),
                )
            } else {
                old(self).mallas()
            },
    {
        match vbo {
            Some(b) => {
                let ghost i = indice_trozo(chunk.0 as int, chunk.1 as int, chunk.2 as int);
                let trozo = self.get_mut_chunk_by_idx(chunk.0, chunk.1, chunk.2);
                let viejo = trozo.instala_malla(b, n_bloques);
                proof {
                    assert forall|k: int| 0 <= k < NUM_TROZOS implies (#[trigger] self.trozos()[k]).wf() by {
                        if k != i {
                            assert(self.trozos()[k] == old(self).trozos()[k]);
                        }
                    }
                    assert(self@ =~= old(self)@);
                    assert(self.mallas() =~= old(self).mallas().update(
                        i,
                        (Some(b), (n_bloques * VERTICES_POR_BLOQUE) as usize),
                    ));
                }
                viejo
            },
            None => None,
        }
    }

    /// Installs the meshes of a whole plan, as `genera_todas_las_mallas`
    /// gives it: entry `k` of the plan is chunk `k` of the chunk list, and
    /// `buffers[k]` is the buffer its mesh was uploaded to, present exactly
    /// when the chunk has visible blocks. A chunk with `k > 0` visible blocks
    /// gets its buffer and `VERTICES_POR_BLOQUE * k` vertices; a chunk with
    /// none keeps its old mesh. Hands back, in chunk order, the old buffers
    /// given up, which the caller is to release. No block changes.
    pub fn instala_mallas(
        &mut self,
        plan: &Vec<((usize, usize, usize), Vec<(usize, usize, usize, u8)>)>,
        buffers: &Vec<Option<u32>>,
    ) -> (viejos: Vec<u32>)
        requires
            old(self).wf(),
            plan@.len() == NUM_TROZOS,
            buffers@.len() == NUM_TROZOS,
            forall|k: int| 0 <= k < NUM_TROZOS ==> ((#[trigger] buffers@[k]) is Some <==> plan@[k].1@.len() > 0),
            forall|k: int| 0 <= k < NUM_TROZOS ==> (#[trigger] plan@[k]).1@.len() * VERTICES_POR_BLOQUE <= usize::MAX,
        ensures
            final(self).wf(),
            final(self)@ == old(self)@,
            viejos@ == liberados(old(self).mallas(), plan@, NUM_TROZOS as nat),
            forall|k: int|
                0 <= k < NUM_TROZOS ==> #[trigger] final(self).mallas()[k] == malla_instalada(
                    old(self).mallas()[k],
                    plan@[k],
                    buffers@[k],
                ),
    {
        let mut viejos: Vec<u32> = Vec::new();
        let mut k: usize = 0;
        while k < MIDA_MUNDO * MIDA_MUNDO * MIDA_MUNDO
            invariant
                self.wf(),
                self@ == old(self)@,
                k <= NUM_TROZOS,
                plan@.len() == NUM_TROZOS,
                buffers@.len() == NUM_TROZOS,
                forall|j: int| 0 <= j < NUM_TROZOS ==> ((#[trigger] buffers@[j]) is Some <==> plan@[j].1@.len() > 0),
                forall|j: int| 0 <= j < NUM_TROZOS ==> (#[trigger] plan@[j]).1@.len() * VERTICES_POR_BLOQUE <= usize::MAX,
                viejos@ == liberados(old(self).mallas(), plan@, k as nat),
                forall|j: int|
                    0 <= j < k ==> #[trigger] self.mallas()[j] == malla_instalada(
                        old(self).mallas()[j],
                        plan@[j],
                        buffers@[j],
                    ),
                forall|j: int| k <= j < NUM_TROZOS ==> #[trigger] self.mallas()[j] == old(self).mallas()[j],
            decreases NUM_TROZOS - k,
        {
            let n_bloques = plan[k].1.len();
            let ghost mallas_antes = self.mallas();
            assert(mallas_antes[k as int] == old(self).mallas()[k as int]);
            if n_bloques > 0 {
                match buffers[k] {
                    Some(vbo) => {
                        let ghost antes = self.trozos@;
                        let viejo = self.trozos[k].instala_malla(vbo, n_bloques);
                        proof {
                            assert(self.trozos@ == antes.update(k as int, self.trozos@[k as int]));
                            assert forall|j: int| 0 <= j < NUM_TROZOS implies (#[trigger] self.trozos()[j]).wf() by {
                                if j != k {
                                    assert(self.trozos()[j] == antes[j]);
                                }
                            }
                            assert(self@ =~= old(self)@);
                            assert(self.mallas() =~= mallas_antes.update(
                                k as int,
                                (Some(vbo), (n_bloques * VERTICES_POR_BLOQUE) as usize),
                            ));
                        }
                        match viejo {
                            Some(v) => viejos.push(v),
                            None => {},
                        }
                    },
                    None => {},
                }
            }
            assert(liberados(old(self).mallas(), plan@, (k + 1) as nat) == if plan@[k as int].1@.len() > 0
                && old(self).mallas()[k as int].0 is Some {
                liberados(old(self).mallas(), plan@, k as nat).push(old(self).mallas()[k as int].0->0)
            } else {
                liberados(old(self).mallas(), plan@, k as nat)
            });
            k = k + 1;
        }
        viejos
    }

    /// The draw calls of the whole world, in the order of the chunk list
    /// (`y` slowest, then `z`, `x` fastest): one `(buffer, vertex count)`
    /// pair for each chunk that has a mesh.
    pub fn dibuja(&self) -> (r: Vec<(u32, usize)>)
        requires
            self.wf(),
        ensures
            r@ == llamadas(self.mallas(), NUM_TROZOS as nat),
    {
        let mut llamadas_hechas: Vec<(u32, usize)> = Vec::new();
        let mut k: usize = 0;
        while k < MIDA_MUNDO * MIDA_MUNDO * MIDA_MUNDO
            invariant
                self.wf(),
                k <= NUM_TROZOS,
                llamadas_hechas@ == llamadas(self.mallas(), k as nat),
            decreases NUM_TROZOS - k,
        {
            match self.trozos[k].dibuja() {
                Some(llamada) => llamadas_hechas.push(llamada),
                None => {},
            }
            k = k + 1;
        }
        llamadas_hechas
    }

    /// What `get_chunk_by_idx` and `Trozo::get` give agrees with `get`: the
    /// block at `(x, y, z)` is the block at `(x % MIDA, y % MIDA, z % MIDA)`
    /// of the chunk with chunk coordinates `(x / MIDA, y / MIDA, z / MIDA)`.
    pub proof fn ley_trozo_y_mundo(&self, x: int, y: int, z: int)
        requires
            self.wf(),
            direccion_valida(x, y, z),
        ensures
            trozo_de(x, y, z) == indice_trozo(x / trozo::MIDA as int, y / trozo::MIDA as int, z / trozo::MIDA as int),
            self.celda(x, y, z) == self.trozos()[trozo_de(x, y, z)]@[indice_bloque(
                x % trozo::MIDA as int,
                y % trozo::MIDA as int,
                z % trozo::MIDA as int,
            )],
    {
    }

    /// In a world made only of air every block of the world's cube touches
    /// air and none is visible.
    pub proof fn ley_mundo_vacio_toca_aire(&self, x: int, y: int, z: int)
        requires
            self.wf(),
            forall|i: int, j: int| 0 <= i < NUM_TROZOS && 0 <= j < VOLUMEN ==> #[trigger] self@[i][j] == 0,
            dentro(x, y, z),
        ensures
            self.toca_aire(x, y, z),
            !self.es_visible(x, y, z),
    {
        lema_dentro_valida(x, y, z);
        trozo::lema_indice_bloque(x % 64, y % 64, z % 64, x % 64, y % 64, z % 64);
        if x < MIDA - 1 {
            lema_dentro_valida(x + 1, y, z);
            trozo::lema_indice_bloque((x + 1) % 64, y % 64, z % 64, x % 64, y % 64, z % 64);
            assert(self.celda(x + 1, y, z) == 0);
        } else {
            lema_dentro_valida(x - 1, y, z);
            trozo::lema_indice_bloque((x - 1) % 64, y % 64, z % 64, x % 64, y % 64, z % 64);
            assert(self.celda(x - 1, y, z) == 0);
        }
        assert(self.celda(x, y, z) == 0);
    }

    /// In a world made only of air no chunk has a visible block.
    pub proof fn ley_mundo_vacio_sin_visibles(&self, cx: int, cy: int, cz: int, n: nat)
        requires
            self.wf(),
            forall|i: int, j: int| 0 <= i < NUM_TROZOS && 0 <= j < VOLUMEN ==> #[trigger] self@[i][j] == 0,
            self.trozo_recorrible(cx, cy, cz),
            n <= VOLUMEN,
        ensures
            self.visibles(cx, cy, cz, n).len() == 0,
        decreases n,
    {
        if n > 0 {
            self.ley_mundo_vacio_sin_visibles(cx, cy, cz, (n - 1) as nat);
            let p = recorrido(cx, cy, cz, n - 1);
            assert(direccion_valida(p.0, p.1, p.2));
            trozo::lema_indice_bloque(p.0 % 64, p.1 % 64, p.2 % 64, p.0 % 64, p.1 % 64, p.2 % 64);
            assert(self.celda(p.0, p.1, p.2) == 0);
            reveal(Mundo::visible_en);
        }
    }

    /// Whether `e` is how some visible block among the first `n` blocks of
    /// the walk of chunk `(cx, cy, cz)` is listed.
    pub open spec fn listado_de(&self, cx: int, cy: int, cz: int, n: nat, e: (usize, usize, usize, u8)) -> bool {
        exists|i: int| 0 <= i < n && #[trigger] self.visible_en(cx, cy, cz, i) && e == self.entrada(cx, cy, cz, i)
    }

    /// The visible blocks listed for the first `n` blocks of a chunk's walk
    /// are at most `n`; each is a visible block met in that part of the walk,
    /// listed with its coordinates and type; and each visible block met there
    /// is listed.
    pub proof fn ley_visibles(&self, cx: int, cy: int, cz: int, n: nat)
        ensures
            self.visibles(cx, cy, cz, n).len() <= n,
            forall|k: int|
                0 <= k < self.visibles(cx, cy, cz, n).len() ==> self.listado_de(
                    cx,
                    cy,
                    cz,
                    n,
                    #[trigger] self.visibles(cx, cy, cz, n)[k],
                ),
            forall|i: int|
                0 <= i < n && #[trigger] self.visible_en(cx, cy, cz, i) ==> self.visibles(cx, cy, cz, n).contains(
                    self.entrada(cx, cy, cz, i),
                ),
        decreases n,
    {
        if n > 0 {
            self.ley_visibles(cx, cy, cz, (n - 1) as nat);
            let previas = self.visibles(cx, cy, cz, (n - 1) as nat);
            let todas = self.visibles(cx, cy, cz, n);
            assert forall|k: int| 0 <= k < todas.len() implies self.listado_de(cx, cy, cz, n, #[trigger] todas[k]) by {
                if k < previas.len() {
                    assert(todas[k] == previas[k]);
                    assert(self.listado_de(cx, cy, cz, (n - 1) as nat, previas[k]));
                    let i = choose|i: int|
                        0 <= i < n - 1 && #[trigger] self.visible_en(cx, cy, cz, i) && previas[k] == self.entrada(cx, cy, cz, i);
                    assert(self.visible_en(cx, cy, cz, i));
                } else {
                    assert(self.visible_en(cx, cy, cz, n - 1));
                    assert(todas[k] == self.entrada(cx, cy, cz, n - 1));
                }
            }
            assert forall|i: int| 0 <= i < n && #[trigger] self.visible_en(cx, cy, cz, i) implies todas.contains(
                self.entrada(cx, cy, cz, i),
            ) by {
                if i < n - 1 {
                    assert(previas.contains(self.entrada(cx, cy, cz, i)));
                    let k = choose|k: int| 0 <= k < previas.len() && previas[k] == self.entrada(cx, cy, cz, i);
                    assert(todas[k] == previas[k]);
                } else {
                    assert(todas[previas.len() as int] == self.entrada(cx, cy, cz, i));
                }
            }
        }
    }

    /// A block of the world's cube touches air exactly when one of its
    /// face neighbours inside the world's cube holds air (type `0`); the type
    /// of solid neighbours does not matter.
    pub proof fn ley_toca_aire(&self, x: int, y: int, z: int)
        requires
            dentro(x, y, z),
        ensures
            self.toca_aire(x, y, z) <==> exists|nx: int, ny: int, nz: int|
                #[trigger] son_vecinos(x, y, z, nx, ny, nz) && dentro(nx, ny, nz) && self.celda(nx, ny, nz) == 0,
    {
        if self.toca_aire(x, y, z) {
            if x < MIDA - 1 && self.celda(x + 1, y, z) == 0 {
                assert(son_vecinos(x, y, z, x + 1, y, z));
            } else if x > 0 && self.celda(x - 1, y, z) == 0 {
                assert(son_vecinos(x, y, z, x - 1, y, z));
            } else if y < MIDA - 1 && self.celda(x, y + 1, z) == 0 {
                assert(son_vecinos(x, y, z, x, y + 1, z));
            } else if y > 0 && self.celda(x, y - 1, z) == 0 {
                assert(son_vecinos(x, y, z, x, y - 1, z));
            } else if z < MIDA - 1 && self.celda(x, y, z + 1) == 0 {
                assert(son_vecinos(x, y, z, x, y, z + 1));
            } else {
                assert(son_vecinos(x, y, z, x, y, z - 1));
            }
        }
        if exists|nx: int, ny: int, nz: int|
            #[trigger] son_vecinos(x, y, z, nx, ny, nz) && dentro(nx, ny, nz) && self.celda(nx, ny, nz) == 0 {
            let (nx, ny, nz) = choose|nx: int, ny: int, nz: int|
                #[trigger] son_vecinos(x, y, z, nx, ny, nz) && dentro(nx, ny, nz) && self.celda(nx, ny, nz) == 0;
            assert(self.toca_aire(x, y, z));
        }
    }

    /// A block met in a chunk's walk is listed as visible exactly when it is
    /// not air and one of its face neighbours inside the world's cube is air,
    /// whatever solid type it has.
    pub proof fn ley_visible_en(&self, cx: int, cy: int, cz: int, i: int)
        requires
            dentro(recorrido(cx, cy, cz, i).0, recorrido(cx, cy, cz, i).1, recorrido(cx, cy, cz, i).2),
        ensures
            ({
                let p = recorrido(cx, cy, cz, i);
                self.visible_en(cx, cy, cz, i) <==> (self.celda(p.0, p.1, p.2) != 0 && exists|nx: int, ny: int, nz: int|
                    #[trigger] son_vecinos(p.0, p.1, p.2, nx, ny, nz) && dentro(nx, ny, nz) && self.celda(nx, ny, nz) == 0)
            }),
    {
        reveal(Mundo::visible_en);
        let p = recorrido(cx, cy, cz, i);
        self.ley_toca_aire(p.0, p.1, p.2);
    }
}

} // verus!
