use mundo_voxel::trozo::{principio_textura, Trozo, MIDA, VERTICES_POR_BLOQUE, VOLUMEN};

#[test]
fn trozo_nuevo_es_aire() {
    let t = Trozo::new();
    assert_eq!(t.get(0, 0, 0), 0);
    assert_eq!(t.get(63, 63, 63), 0);
    assert_eq!(t.get(10, 20, 30), 0);
    assert_eq!(t.vbo, None);
    assert_eq!(t.n_vertices, 0);
    assert_eq!(MIDA * MIDA * MIDA, VOLUMEN);
}

#[test]
fn trozo_leer_tras_escribir() {
    let mut t = Trozo::new();
    t.set(1, 2, 3, 7);
    assert_eq!(t.get(1, 2, 3), 7);
    assert_eq!(t.get(3, 2, 1), 0);
    assert_eq!(t.get(1, 3, 2), 0);
    assert_eq!(t.get(2, 2, 3), 0);
    t.set(1, 2, 3, 4);
    assert_eq!(t.get(1, 2, 3), 4);
}

#[test]
fn trozo_posicion_fuera_de_rango_cae_en_otra() {
    // x = 64 is position 64 of the array, the same as (0, 0, 1).
    let mut t = Trozo::new();
    t.set(64, 0, 0, 9);
    assert_eq!(t.get(0, 0, 1), 9);
}

#[test]
fn trozo_escribir_no_toca_la_malla() {
    let mut t = Trozo::new();
    t.instala_malla(5, 2);
    t.set(0, 0, 0, 1);
    assert_eq!(t.vbo, Some(5));
    assert_eq!(t.n_vertices, 72);
}

#[test]
fn trozo_dibuja_sin_malla() {
    let t = Trozo::new();
    assert_eq!(t.dibuja(), None);
}

#[test]
fn trozo_instala_malla() {
    let mut t = Trozo::new();
    t.set(4, 4, 4, 3);
    let viejo = t.instala_malla(11, 3);
    assert_eq!(viejo, None);
    assert_eq!(t.vbo, Some(11));
    assert_eq!(t.n_vertices, 3 * VERTICES_POR_BLOQUE);
    assert_eq!(t.dibuja(), Some((11, 108)));
    let viejo = t.instala_malla(12, 1);
    assert_eq!(viejo, Some(11));
    assert_eq!(t.dibuja(), Some((12, 36)));
    assert_eq!(t.get(4, 4, 4), 3);
}

#[test]
fn principio_de_las_texturas() {
    assert_eq!(principio_textura(1), 0);
    assert_eq!(principio_textura(2), 32);
    assert_eq!(principio_textura(5), 128);
    assert_eq!(principio_textura(8), 224);
}

#[test]
fn trozo_historia_de_escrituras() {
    let mut t = Trozo::new();
    t.set(1, 2, 3, 1);
    t.set(4, 5, 6, 2);
    t.set(1, 2, 3, 3);
    assert_eq!(t.get(1, 2, 3), 3);
    assert_eq!(t.get(4, 5, 6), 2);
    assert_eq!(t.get(6, 5, 4), 0);
}
