use vstd::prelude::*;

use crate::mundo::{
    celda_de, contenido_bien_formado, dentro, direccion_valida, escribe, lema_dentro_valida,
    ley_direcciones_distintas, ley_leer_tras_escribir, Mundo, MIDA,
};
use crate::trozo;

verus! {

/// Number of leaf blocks of a tree's crown: a 3 × 3 square of columns, four
/// blocks high.
pub const HOJAS_POR_COPA: usize = 36;

/// Block type of the surface of a column of the given height: `2` at height
/// `0`, `4` below `5`, `5` below `20`, `1` below `25`, `6` below `40`, `3`
/// from `40` up.
pub open spec fn tipo_para_altura(altura: int) -> u8 {
    if altura == 0 {
        2
    } else if altura >= 40 {
        3
    } else if 25 <= altura < 40 {
        6
    } else if 1 <= altura < 5 {
        4
    } else if 5 <= altura < 20 {
        5
    } else {
        1
    }
}

/// Remainder of `a` divided by `m`, with the sign of `a`, as Rust's `%`
/// computes it on signed integers.
pub open spec fn resto(a: int, m: int) -> int {
    if a >= 0 {
        a % m
    } else {
        -((-a) % m)
    }
}

/// Whether a column of the given height may carry a tree: heights `5` to
/// `19`. Only for those does terrain generation draw a random number.
pub fn altura_de_arbol(altura: u16) -> (r: bool)
    ensures
        r == (5 <= altura < 20),
{
    5 <= altura && altura < 20
}

/// Whether a tree grows on the column at `(x, z)` of the given height, given
/// a random draw `azar`: the surface must be of height `5` to `19`, the
/// draw's remainder by 1000 (with the draw's sign) must be below 30, and the
/// column must stay clear of the world's low edges by 6 blocks and of the high
/// `z` edge by 5.
pub open spec fn lleva_arbol(x: int, z: int, altura: int, azar: int) -> bool {
    &&& 5 <= altura < 20
    &&& resto(azar, 1000) < 30
    &&& x > 5
    &&& x < MIDA
    &&& z > 5
    &&& z < MIDA - 5
}

/// The `k`-th leaf of the crown of a tree whose trunk stands on `(x, altura, z)`:
/// leaves are laid with `x` slowest, then `z`, the height fastest.
pub open spec fn hoja(x: int, altura: int, z: int, k: int) -> (int, int, int) {
    (x - 1 + k / 12, altura + 3 + k % 4, z - 1 + (k / 4) % 3)
}

/// World contents `w` after laying the first `n` leaves of the crown of a
/// tree standing on `(x, altura, z)`.
pub open spec fn copa(w: Seq<Seq<u8>>, x: int, altura: int, z: int, n: nat) -> Seq<Seq<u8>>
    decreases n,
{
    if n == 0 {
        w
    } else {
        let h = hoja(x, altura, z, n - 1);
        escribe(copa(w, x, altura, z, (n - 1) as nat), h.0, h.1, h.2, 5)
    }
}

/// World contents `w` after planting a tree on `(x, altura, z)`: a trunk of
/// type `1` at heights `altura` to `altura + 2`, then the crown, of type `5`.
pub open spec fn arbol(w: Seq<Seq<u8>>, x: int, altura: int, z: int) -> Seq<Seq<u8>> {
    let tronco = escribe(
        escribe(escribe(w, x, altura, z, 1), x, altura + 1, z, 1),
        x,
        altura + 2,
        z,
        1,
    );
    copa(tronco, x, altura, z, HOJAS_POR_COPA as nat)
}

/// World contents `w` after storing `v` at heights `0` to `n - 1` of the
/// column `(x, z)`, lowest first.
pub open spec fn rellena(w: Seq<Seq<u8>>, x: int, z: int, n: nat, v: u8) -> Seq<Seq<u8>>
    decreases n,
{
    if n == 0 {
        w
    } else {
        escribe(rellena(w, x, z, (n - 1) as nat, v), x, n - 1, z, v)
    }
}

/// World contents `w` after generating the column `(x, z)` with a surface of
/// the given height: the tree, if one grows there, then the surface block,
/// then the column below it, all of the surface's type.
pub open spec fn columna(w: Seq<Seq<u8>>, x: int, z: int, altura: int, azar: int) -> Seq<Seq<u8>> {
    let v = tipo_para_altura(altura);
    let con_arbol = if lleva_arbol(x, z, altura, azar) {
        arbol(w, x, altura, z)
    } else {
        w
    };
    rellena(escribe(con_arbol, x, altura, z, v), x, z, altura as nat, v)
}

/// Every block with coordinates up to the world's edge plus one in `x`, below
/// height 64 and inside the world in `z` lies in an existing chunk.
pub proof fn lema_zona_de_arboles(x: int, y: int, z: int)
    requires
        0 <= x <= MIDA,
        0 <= y < trozo::MIDA,
        0 <= z < MIDA,
    ensures
        direccion_valida(x, y, z),
{
    assert(0 <= x / 64 <= 8 && y / 64 == 0 && 0 <= z / 64 < 8) by (nonlinear_arith)
        requires
            0 <= x <= 512,
            0 <= y < 64,
            0 <= z < 512,
    ;
}

/// Whether `(qx, qy, qz)` lies in the crown of a tree standing on
/// `(x, altura, z)`.
pub open spec fn en_copa(x: int, altura: int, z: int, qx: int, qy: int, qz: int) -> bool {
    &&& x - 1 <= qx <= x + 1
    &&& z - 1 <= qz <= z + 1
    &&& altura + 3 <= qy <= altura + 6
}

/// The block type found at `(qx, qy, qz)` after generating the column
/// `(x, z)` of the given height on the world contents `w`.
pub open spec fn tras_columna(w: Seq<Seq<u8>>, x: int, z: int, altura: int, azar: int, qx: int, qy: int, qz: int) -> u8 {
    let arbol = lleva_arbol(x, z, altura, azar);
    if qx == x && qz == z && 0 <= qy <= altura {
        tipo_para_altura(altura)
    } else if arbol && qx == x && qz == z && (qy == altura + 1 || qy == altura + 2) {
        1
    } else if arbol && en_copa(x, altura, z, qx, qy, qz) {
        5
    } else {
        celda_de(w, qx, qy, qz)
    }
}

/// Storing `v` at heights `0` to `n - 1` of the column `(x, z)` changes
/// exactly those blocks of the world's cube.
pub proof fn lema_rellena(w: Seq<Seq<u8>>, x: int, z: int, n: nat, v: u8, qx: int, qy: int, qz: int)
    requires
        contenido_bien_formado(w),
        0 <= x < MIDA,
        0 <= z < MIDA,
        n <= MIDA,
        dentro(qx, qy, qz),
    ensures
        contenido_bien_formado(rellena(w, x, z, n, v)),
        celda_de(rellena(w, x, z, n, v), qx, qy, qz) == if qx == x && qz == z && qy < n {
            v
        } else {
            celda_de(w, qx, qy, qz)
        },
    decreases n,
{
    if n > 0 {
        lema_rellena(w, x, z, (n - 1) as nat, v, qx, qy, qz);
        lema_dentro_valida(x, n - 1, z);
        lema_dentro_valida(qx, qy, qz);
        ley_leer_tras_escribir(rellena(w, x, z, (n - 1) as nat, v), x, n - 1, z, v, qx, qy, qz);
        ley_direcciones_distintas(x, n - 1, z, qx, qy, qz);
    }
}

/// Laying the first `n` leaves of a crown changes exactly those leaves'
/// blocks, when the whole crown lies inside the world's cube.
pub proof fn lema_copa(w: Seq<Seq<u8>>, x: int, altura: int, z: int, n: nat, qx: int, qy: int, qz: int)
    requires
        contenido_bien_formado(w),
        1 <= x < MIDA - 1,
        0 <= altura < 20,
        1 <= z < MIDA - 1,
        n <= HOJAS_POR_COPA,
        dentro(qx, qy, qz),
    ensures
        contenido_bien_formado(copa(w, x, altura, z, n)),
        celda_de(copa(w, x, altura, z, n), qx, qy, qz) == if exists|k: int|
            0 <= k < n && #[trigger] hoja(x, altura, z, k) == (qx, qy, qz) {
            5
        } else {
            celda_de(w, qx, qy, qz)
        },
    decreases n,
{
    if n > 0 {
        lema_copa(w, x, altura, z, (n - 1) as nat, qx, qy, qz);
        let k = n - 1;
        let h = hoja(x, altura, z, k);
        assert(k / 12 < 3 && (k / 4) % 3 < 3 && k % 4 < 4 && k / 12 >= 0 && (k / 4) % 3 >= 0 && k % 4 >= 0) by (nonlinear_arith)
            requires
                0 <= k < 36,
        ;
        assert(dentro(h.0, h.1, h.2));
        lema_dentro_valida(h.0, h.1, h.2);
        lema_dentro_valida(qx, qy, qz);
        ley_leer_tras_escribir(copa(w, x, altura, z, (n - 1) as nat), h.0, h.1, h.2, 5, qx, qy, qz);
        ley_direcciones_distintas(h.0, h.1, h.2, qx, qy, qz);
        if h != (qx, qy, qz) {
            if exists|j: int| 0 <= j < n && #[trigger] hoja(x, altura, z, j) == (qx, qy, qz) {
                let j = choose|j: int| 0 <= j < n && #[trigger] hoja(x, altura, z, j) == (qx, qy, qz);
                assert(j != n - 1);
            }
        }
    }
}

/// The leaves of a crown are exactly the blocks of its box.
pub proof fn lema_caja_de_copa(x: int, altura: int, z: int, qx: int, qy: int, qz: int)
    ensures
        (exists|k: int| 0 <= k < HOJAS_POR_COPA && #[trigger] hoja(x, altura, z, k) == (qx, qy, qz))
            <==> en_copa(x, altura, z, qx, qy, qz),
{
    if en_copa(x, altura, z, qx, qy, qz) {
        let (a, b, c) = (qx - x + 1, qz - z + 1, qy - altura - 3);
        let k = 12 * a + 4 * b + c;
        assert(k / 12 == a && (k / 4) % 3 == b && k % 4 == c && 0 <= k < 36) by (nonlinear_arith)
            requires
                0 <= a < 3,
                0 <= b < 3,
                0 <= c < 4,
                k == 12 * a + 4 * b + c,
        ;
        assert(hoja(x, altura, z, k) == (qx, qy, qz));
    }
    if exists|k: int| 0 <= k < HOJAS_POR_COPA && #[trigger] hoja(x, altura, z, k) == (qx, qy, qz) {
        let k = choose|k: int| 0 <= k < HOJAS_POR_COPA && #[trigger] hoja(x, altura, z, k) == (qx, qy, qz);
        assert(k / 12 < 3 && (k / 4) % 3 < 3 && k % 4 < 4 && k / 12 >= 0 && (k / 4) % 3 >= 0 && k % 4 >= 0) by (nonlinear_arith)
            requires
                0 <= k < 36,
        ;
    }
}

/// What generating a column does to the world's cube: the column up to the
/// surface takes the surface's type; if a tree grows, the two blocks above
/// the surface become trunk (type `1`) and the 3 × 3 × 4 box of the crown
/// becomes leaves (type `5`); every other block keeps its type. When a tree
/// grows on the column next to the world's high `x` edge, its crown pokes
/// past that edge and lands elsewhere in the world, so that case is left out.
pub proof fn ley_columna(w: Seq<Seq<u8>>, x: int, z: int, altura: int, azar: int, qx: int, qy: int, qz: int)
    requires
        contenido_bien_formado(w),
        0 <= x < MIDA,
        0 <= z < MIDA,
        0 <= altura < MIDA,
        lleva_arbol(x, z, altura, azar) ==> x < MIDA - 1,
        dentro(qx, qy, qz),
    ensures
        contenido_bien_formado(columna(w, x, z, altura, azar)),
        celda_de(columna(w, x, z, altura, azar), qx, qy, qz) == tras_columna(w, x, z, altura, azar, qx, qy, qz),
{
    let v = tipo_para_altura(altura);
    lema_dentro_valida(qx, qy, qz);
    let con_arbol = if lleva_arbol(x, z, altura, azar) {
        arbol(w, x, altura, z)
    } else {
        w
    };
    if lleva_arbol(x, z, altura, azar) {
        lema_dentro_valida(x, altura, z);
        lema_dentro_valida(x, altura + 1, z);
        lema_dentro_valida(x, altura + 2, z);
        let t1 = escribe(w, x, altura, z, 1);
        let t2 = escribe(t1, x, altura + 1, z, 1);
        let t3 = escribe(t2, x, altura + 2, z, 1);
        ley_leer_tras_escribir(w, x, altura, z, 1, qx, qy, qz);
        ley_leer_tras_escribir(t1, x, altura + 1, z, 1, qx, qy, qz);
        ley_leer_tras_escribir(t2, x, altura + 2, z, 1, qx, qy, qz);
        ley_direcciones_distintas(x, altura, z, qx, qy, qz);
        ley_direcciones_distintas(x, altura + 1, z, qx, qy, qz);
        ley_direcciones_distintas(x, altura + 2, z, qx, qy, qz);
        lema_copa(t3, x, altura, z, HOJAS_POR_COPA as nat, qx, qy, qz);
        lema_caja_de_copa(x, altura, z, qx, qy, qz);
    }
    lema_dentro_valida(x, altura, z);
    ley_leer_tras_escribir(con_arbol, x, altura, z, v, qx, qy, qz);
    ley_direcciones_distintas(x, altura, z, qx, qy, qz);
    lema_rellena(escribe(con_arbol, x, altura, z, v), x, z, altura as nat, v, qx, qy, qz);
}

/// The surface type is fixed by bands of the world height itself: `2` at
/// `0`, `4` on `[1, 5)`, `5` on `[5, 20)`, `1` on `[20, 25)`, `6` on
/// `[25, 40)`, `3` on every height from `40` up; so two heights in the same
/// band always get the same type, wherever they lie in their chunks.
pub proof fn ley_tipos_por_altura(h: int, h2: int)
    requires
        0 <= h,
        0 <= h2,
    ensures
        h == 0 ==> tipo_para_altura(h) == 2,
        1 <= h < 5 ==> tipo_para_altura(h) == 4,
        5 <= h < 20 ==> tipo_para_altura(h) == 5,
        20 <= h < 25 ==> tipo_para_altura(h) == 1,
        25 <= h < 40 ==> tipo_para_altura(h) == 6,
        40 <= h ==> tipo_para_altura(h) == 3,
        (40 <= h && 40 <= h2) ==> tipo_para_altura(h) == tipo_para_altura(h2),
        h + trozo::MIDA == h2 && 40 <= h ==> tipo_para_altura(h) == tipo_para_altura(h2),
{
}

/// Whether a tree grows depends on a non-negative draw only through its
/// remainder by 1000: a tree needs that remainder below 30, draws that
/// differ by a multiple of 1000 decide alike, and on a column that may carry
/// a tree such a draw does plant one.
pub proof fn ley_azar_del_arbol(x: int, z: int, altura: int, azar: int, vueltas: int)
    requires
        0 <= azar,
        0 <= vueltas,
    ensures
        lleva_arbol(x, z, altura, azar) ==> azar % 1000 < 30,
        lleva_arbol(x, z, altura, azar) == lleva_arbol(x, z, altura, azar + 1000 * vueltas),
        (5 <= altura < 20 && 5 < x < MIDA && 5 < z < MIDA - 5 && azar % 1000 < 30) ==> lleva_arbol(
            x,
            z,
            altura,
            azar,
        ),
{
    assert((azar + 1000 * vueltas) % 1000 == azar % 1000) by (nonlinear_arith)
        requires
            0 <= azar,
            0 <= vueltas,
    ;
}

/// A column whose non-negative draw leaves a remainder by 1000 of 30 or more
/// grows no tree: generating it changes no block outside the column itself.
pub proof fn ley_columna_sin_arbol(
    w: Seq<Seq<u8>>,
    x: int,
    z: int,
    altura: int,
    azar: int,
    qx: int,
    qy: int,
    qz: int,
)
    requires
        contenido_bien_formado(w),
        0 <= x < MIDA,
        0 <= z < MIDA,
        0 <= altura < MIDA,
        0 <= azar,
        azar % 1000 >= 30,
        dentro(qx, qy, qz),
        !(qx == x && qz == z && qy <= altura),
    ensures
        celda_de(columna(w, x, z, altura, azar), qx, qy, qz) == celda_de(w, qx, qy, qz),
{
    ley_azar_del_arbol(x, z, altura, azar, 0);
    ley_columna(w, x, z, altura, azar, qx, qy, qz);
}

/// Block type of the surface of a column of the given height.
pub fn tipo_por_altura(altura: u16) -> (r: u8)
    ensures
        r == tipo_para_altura(altura as int),
{
    if altura == 0 {
        2
    } else if altura >= 40 {
        3
    } else if altura >= 25 {
        6
    } else if altura < 5 {
        4
    } else if altura < 20 {
        5
    } else {
        1
    }
}

impl Mundo {
    /// Plants a tree whose trunk stands on `(x, altura, z)`.
    pub fn planta_arbol(&mut self, x: usize, altura: usize, z: usize)
        requires
            old(self).wf(),
            1 <= x < MIDA,
            altura < 20,
            1 <= z < MIDA - 1,
        ensures
            final(self).wf(),
            final(self)@ == arbol(old(self)@, x as int, altura as int, z as int),
            final(self).mallas() == old(self).mallas(),
    {
        proof {
            lema_zona_de_arboles(x as int, altura as int, z as int);
            lema_zona_de_arboles(x as int, altura + 1, z as int);
            lema_zona_de_arboles(x as int, altura + 2, z as int);
        }
        self.set(x, altura, z, 1);
        self.set(x, altura + 1, z, 1);
        self.set(x, altura + 2, z, 1);
        let ghost tronco = self@;
        let mut k: usize = 0;
        while k < HOJAS_POR_COPA
            invariant
                self.wf(),
                1 <= x < MIDA,
                altura < 20,
                1 <= z < MIDA - 1,
                k <= HOJAS_POR_COPA,
                self@ == copa(tronco, x as int, altura as int, z as int, k as nat),
                self.mallas() == old(self).mallas(),
            decreases HOJAS_POR_COPA - k,
        {
            let hx = x - 1 + k / 12;
            let hy = altura + 3 + k % 4;
            let hz = z - 1 + (k / 4) % 3;
            proof {
                assert(k / 12 < 3 && (k / 4) % 3 < 3 && k % 4 < 4) by (nonlinear_arith)
                    requires
                        k < 36,
                ;
                lema_zona_de_arboles(hx as int, hy as int, hz as int);
            }
            self.set(hx, hy, hz, 5);
            k = k + 1;
        }
    }

    /// Generates the column `(x, z)` of the terrain, whose surface lies at the
    /// given height, `azar` being the random draw that decides whether a tree
    /// grows on it.
    pub fn genera_columna(&mut self, x: u16, z: u16, altura: u16, azar: i64)
        requires
            old(self).wf(),
            x < MIDA,
            z < MIDA,
            altura < MIDA,
        ensures
            final(self).wf(),
            final(self)@ == columna(old(self)@, x as int, z as int, altura as int, azar as int),
            final(self).mallas() == old(self).mallas(),
    {
        let val = tipo_por_altura(altura);
        if altura >= 5 && altura < 20 && azar % 1000 < 30 && x > 5 && x < MIDA as u16 && z > 5 && z < MIDA
            as u16 - 5 {
            self.planta_arbol(x as usize, altura as usize, z as usize);
        }
        proof {
            lema_dentro_valida(x as int, altura as int, z as int);
        }
        self.set(x as usize, altura as usize, z as usize, val);
        let ghost base = self@;
        let mut y: u16 = 0;
        while y < altura
            invariant
                self.wf(),
                x < MIDA,
                z < MIDA,
                altura < MIDA,
                y <= altura,
                self@ == rellena(base, x as int, z as int, y as nat, val),
                self.mallas() == old(self).mallas(),
            decreases altura - y,
        {
            proof {
                lema_dentro_valida(x as int, y as int, z as int);
            }
            self.set(x as usize, y as usize, z as usize, val);
            y = y + 1;
        }
    }
}

} // verus!
