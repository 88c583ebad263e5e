use mundo_voxel::mundo::Mundo;
use mundo_voxel::terreno::{altura_de_arbol, tipo_por_altura, HOJAS_POR_COPA};

#[test]
fn tipos_por_altura() {
    assert_eq!(tipo_por_altura(0), 2);
    assert_eq!(tipo_por_altura(1), 4);
    assert_eq!(tipo_por_altura(4), 4);
    assert_eq!(tipo_por_altura(5), 5);
    assert_eq!(tipo_por_altura(19), 5);
    assert_eq!(tipo_por_altura(20), 1);
    assert_eq!(tipo_por_altura(24), 1);
    assert_eq!(tipo_por_altura(25), 6);
    assert_eq!(tipo_por_altura(39), 6);
    assert_eq!(tipo_por_altura(40), 3);
    assert_eq!(tipo_por_altura(511), 3);
}

#[test]
fn columna_sin_arbol() {
    let mut m = Mundo::new();
    m.genera_columna(100, 200, 30, 0);
    for y in 0..=30 {
        assert_eq!(m.get(100, y, 200), 6);
    }
    assert_eq!(m.get(100, 31, 200), 0);
    assert_eq!(m.get(101, 30, 200), 0);
}

#[test]
fn columna_de_altura_cero() {
    let mut m = Mundo::new();
    m.genera_columna(3, 4, 0, 0);
    assert_eq!(m.get(3, 0, 4), 2);
    assert_eq!(m.get(3, 1, 4), 0);
}

#[test]
fn columna_con_arbol() {
    let mut m = Mundo::new();
    // a draw of 1029 leaves 29 < 30: a tree grows
    m.genera_columna(100, 200, 10, 1029);
    for y in 0..=10 {
        assert_eq!(m.get(100, y, 200), 5);
    }
    assert_eq!(m.get(100, 11, 200), 1);
    assert_eq!(m.get(100, 12, 200), 1);
    let mut hojas = 0;
    for x in 99..=101 {
        for z in 199..=201 {
            for y in 13..=16 {
                assert_eq!(m.get(x, y, z), 5);
                hojas += 1;
            }
            assert_eq!(m.get(x, 17, z), 0);
        }
    }
    assert_eq!(hojas, HOJAS_POR_COPA);
    assert_eq!(m.get(101, 10, 200), 0);
}

#[test]
fn columna_sin_arbol_por_el_azar() {
    let mut m = Mundo::new();
    m.genera_columna(100, 200, 10, 1030);
    assert_eq!(m.get(100, 10, 200), 5);
    assert_eq!(m.get(100, 11, 200), 0);
}

#[test]
fn columna_sin_arbol_cerca_del_borde() {
    let mut m = Mundo::new();
    m.genera_columna(5, 200, 10, 0);
    assert_eq!(m.get(5, 11, 200), 0);
    let mut m2 = Mundo::new();
    m2.genera_columna(100, 507, 10, 0);
    assert_eq!(m2.get(100, 11, 507), 0);
    let mut m3 = Mundo::new();
    m3.genera_columna(100, 506, 10, 0);
    assert_eq!(m3.get(100, 11, 506), 1);
}

#[test]
fn columna_sin_arbol_fuera_de_las_alturas() {
    let mut m = Mundo::new();
    m.genera_columna(100, 200, 20, 0);
    assert_eq!(m.get(100, 21, 200), 0);
    let mut m2 = Mundo::new();
    m2.genera_columna(100, 200, 4, 0);
    assert_eq!(m2.get(100, 5, 200), 0);
}

#[test]
fn arbol_en_el_borde_alto_de_x() {
    // The crown of a tree on x = 511 pokes past the world's edge: its
    // leaves at x = 512 land on x = 0, 64 blocks further in z.
    let mut m = Mundo::new();
    m.genera_columna(511, 100, 10, 0);
    assert_eq!(m.get(511, 11, 100), 1);
    assert_eq!(m.get(0, 13, 164), 5);
}

#[test]
fn azar_negativo() {
    // Rust's remainder keeps the sign: -5 % 1000 == -5 < 30.
    let mut m = Mundo::new();
    m.genera_columna(100, 200, 10, -5);
    assert_eq!(m.get(100, 11, 200), 1);
}

#[test]
fn alturas_con_arbol() {
    assert!(!altura_de_arbol(4));
    assert!(altura_de_arbol(5));
    assert!(altura_de_arbol(19));
    assert!(!altura_de_arbol(20));
    assert!(!altura_de_arbol(0));
}
