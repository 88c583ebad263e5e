use mundo_voxel::camera::Direction;
use mundo_voxel::mundo::{Mundo, MIDA, MIDA_MUNDO, NUM_TROZOS};

#[test]
fn mundo_constantes() {
    assert_eq!(MIDA_MUNDO, 8);
    assert_eq!(MIDA, 512);
    assert_eq!(NUM_TROZOS, MIDA_MUNDO * MIDA_MUNDO * MIDA_MUNDO);
}

#[test]
fn mundo_nuevo_es_aire() {
    let m = Mundo::new();
    assert_eq!(m.get(0, 0, 0), 0);
    assert_eq!(m.get(511, 511, 511), 0);
    assert_eq!(m.get(100, 200, 300), 0);
    assert_eq!(m.get_chunk_by_idx(7, 7, 7).vbo, None);
}

#[test]
fn mundo_leer_tras_escribir() {
    let mut m = Mundo::new();
    m.set(100, 200, 300, 6);
    assert_eq!(m.get(100, 200, 300), 6);
    assert_eq!(m.get(101, 200, 300), 0);
    assert_eq!(m.get(100, 201, 300), 0);
    assert_eq!(m.get(100, 200, 301), 0);
    assert_eq!(m.get(36, 8, 44), 0);
    m.set(100, 200, 300, 2);
    assert_eq!(m.get(100, 200, 300), 2);
}

#[test]
fn mundo_trozo_y_mundo_coinciden() {
    let mut m = Mundo::new();
    m.set(130, 70, 260, 4);
    // chunk (2, 1, 4), position (2, 6, 4) inside it
    assert_eq!(m.get_chunk_by_idx(2, 1, 4).get(2, 6, 4), 4);
    assert_eq!(m.get_chunk_by_idx(2, 4, 1).get(2, 6, 4), 0);
    m.get_mut_chunk_by_idx(0, 0, 0).set(1, 1, 1, 8);
    assert_eq!(m.get(1, 1, 1), 8);
}

#[test]
fn mundo_coordenada_fuera_del_borde_cae_en_otro_trozo() {
    // x = 512 lands in chunk 8 of the list, which is chunk (0, 0, 1).
    let mut m = Mundo::new();
    m.set(512, 3, 5, 7);
    assert_eq!(m.get(0, 3, 69), 7);
}

#[test]
fn mundo_toca_aire() {
    let mut m = Mundo::new();
    m.set(10, 10, 10, 1);
    assert!(m.touches_air(10, 10, 10));
    for (x, y, z) in [(11, 10, 10), (9, 10, 10), (10, 11, 10), (10, 9, 10), (10, 10, 11), (10, 10, 9)] {
        m.set(x, y, z, 1);
    }
    assert!(!m.touches_air(10, 10, 10));
    m.set(10, 10, 9, 0);
    assert!(m.touches_air(10, 10, 10));
}

#[test]
fn mundo_toca_aire_en_el_borde() {
    // On the world's edge only the neighbours inside the world count.
    let mut m = Mundo::new();
    for (x, y, z) in [(0, 0, 0), (1, 0, 0), (0, 1, 0), (0, 0, 1)] {
        m.set(x, y, z, 3);
    }
    assert!(!m.touches_air(0, 0, 0));
    let mut m2 = Mundo::new();
    for (x, y, z) in [(511, 511, 511), (510, 511, 511), (511, 510, 511), (511, 511, 510)] {
        m2.set(x, y, z, 3);
    }
    assert!(!m2.touches_air(511, 511, 511));
}

#[test]
fn mundo_bloques_visibles_de_un_cubo() {
    let mut m = Mundo::new();
    for x in 64..67 {
        for y in 1..4 {
            for z in 1..4 {
                m.set(x, y, z, 2);
            }
        }
    }
    let visibles = m.bloques_visibles((1, 0, 0));
    // every block but the centre one touches air
    assert_eq!(visibles.len(), 26);
    assert!(!visibles.contains(&(65, 2, 2, 2)));
    assert_eq!(visibles[0], (64, 1, 1, 2));
    assert_eq!(visibles[1], (65, 1, 1, 2));
    assert_eq!(visibles[25], (66, 3, 3, 2));
    assert!(m.bloques_visibles((0, 0, 0)).is_empty());
}

#[test]
fn mundo_bloques_visibles_en_el_borde() {
    // On the world's edge, neighbours past the edge do not count as air.
    let mut m = Mundo::new();
    for x in 64..67 {
        for y in 0..3 {
            for z in 0..3 {
                m.set(x, y, z, 2);
            }
        }
    }
    let visibles = m.bloques_visibles((1, 0, 0));
    assert_eq!(visibles.len(), 23);
    assert!(!visibles.contains(&(65, 0, 0, 2)));
    assert!(!visibles.contains(&(65, 0, 1, 2)));
    assert!(!visibles.contains(&(65, 1, 0, 2)));
}

#[test]
fn mundo_bloques_visibles_orden_del_recorrido() {
    let mut m = Mundo::new();
    m.set(5, 9, 2, 1);
    m.set(3, 1, 7, 4);
    m.set(6, 1, 2, 3);
    let visibles = m.bloques_visibles((0, 0, 0));
    assert_eq!(visibles, vec![(6, 1, 2, 3), (5, 9, 2, 1), (3, 1, 7, 4)]);
}

#[test]
fn mundo_genera_todas_las_mallas() {
    let mut m = Mundo::new();
    m.set(70, 140, 200, 6);
    let mallas = m.genera_todas_las_mallas();
    assert_eq!(mallas.len(), NUM_TROZOS);
    assert_eq!(mallas[0].0, (0, 0, 0));
    assert_eq!(mallas[1].0, (1, 0, 0));
    assert_eq!(mallas[8].0, (0, 0, 1));
    assert_eq!(mallas[64].0, (0, 1, 0));
    // chunk (1, 2, 3) is number 1 + 64 * 2 + 8 * 3
    assert_eq!(mallas[153].0, (1, 2, 3));
    assert_eq!(mallas[153].1, vec![(70, 140, 200, 6)]);
    let con_bloques: usize = mallas.iter().filter(|(_, v)| !v.is_empty()).count();
    assert_eq!(con_bloques, 1);
}

#[test]
fn mundo_instala_malla_y_dibuja() {
    let mut m = Mundo::new();
    assert!(m.dibuja().is_empty());
    m.set(1, 1, 1, 5);
    assert_eq!(m.instala_malla((0, 0, 0), Some(3), 1), None);
    assert_eq!(m.instala_malla((1, 2, 3), Some(4), 2), None);
    assert_eq!(m.dibuja(), vec![(3, 36), (4, 72)]);
    assert_eq!(m.instala_malla((0, 0, 0), Some(9), 1), Some(3));
    assert_eq!(m.dibuja(), vec![(9, 36), (4, 72)]);
    assert_eq!(m.get(1, 1, 1), 5);
    assert_eq!(m.get_chunk_by_idx(1, 2, 3).n_vertices, 72);
}

#[test]
fn mundo_escribir_no_toca_las_mallas() {
    let mut m = Mundo::new();
    m.instala_malla((0, 0, 0), Some(3), 2);
    m.set(0, 0, 0, 1);
    assert_eq!(m.dibuja(), vec![(3, 72)]);
}

#[test]
fn direcciones_distintas() {
    let d = Direction::Left;
    assert_eq!(d, Direction::Left);
    assert_ne!(Direction::Front, Direction::Back);
    assert_ne!(Direction::Right, Direction::Left);
}

/// Buffer ids handed out in order to the plan's chunks that have visible
/// blocks, as the GPU would.
fn buffers_para(plan: &[((usize, usize, usize), Vec<(usize, usize, usize, u8)>)], primero: u32) -> Vec<Option<u32>> {
    let mut siguiente = primero;
    plan.iter()
        .map(|(_, v)| {
            if v.is_empty() {
                None
            } else {
                siguiente += 1;
                Some(siguiente - 1)
            }
        })
        .collect()
}

#[test]
fn mundo_instala_todas_las_mallas() {
    let mut w = Mundo::new();
    w.set(0, 0, 0, 1);
    w.set(100, 100, 100, 2);
    let plan = w.genera_todas_las_mallas();
    let buffers = buffers_para(&plan, 1);
    assert_eq!(buffers.iter().filter(|b| b.is_some()).count(), 2);
    let viejos = w.instala_mallas(&plan, &buffers);
    assert!(viejos.is_empty());
    assert_eq!(w.get_chunk_by_idx(0, 0, 0).n_vertices, 36);
    assert_eq!(w.get_chunk_by_idx(0, 0, 0).vbo, Some(1));
    assert_eq!(w.get_chunk_by_idx(1, 1, 1).n_vertices, 36);
    assert_eq!(w.get_chunk_by_idx(1, 1, 1).vbo, Some(2));
    assert_eq!(w.get_chunk_by_idx(1, 0, 0).vbo, None);
    assert_eq!(w.get_chunk_by_idx(1, 0, 0).n_vertices, 0);
    assert_eq!(w.get(100, 100, 100), 2);
    assert_eq!(w.dibuja(), vec![(1, 36), (2, 36)]);
}

#[test]
fn mundo_reinstalar_mallas_libera_las_viejas() {
    let mut w = Mundo::new();
    w.set(0, 0, 0, 1);
    w.set(100, 100, 100, 2);
    let plan = w.genera_todas_las_mallas();
    w.instala_mallas(&plan, &buffers_para(&plan, 1));
    // the block of chunk (1, 1, 1) goes; chunk (0, 0, 0) gets a second one
    w.set(100, 100, 100, 0);
    w.set(1, 0, 0, 3);
    let plan = w.genera_todas_las_mallas();
    let viejos = w.instala_mallas(&plan, &buffers_para(&plan, 10));
    assert_eq!(viejos, vec![1]);
    assert_eq!(w.get_chunk_by_idx(0, 0, 0).vbo, Some(10));
    assert_eq!(w.get_chunk_by_idx(0, 0, 0).n_vertices, 72);
    // a chunk with no visible block keeps its old mesh
    assert_eq!(w.get_chunk_by_idx(1, 1, 1).vbo, Some(2));
    assert_eq!(w.get_chunk_by_idx(1, 1, 1).n_vertices, 36);
}

#[test]
fn mundo_instala_malla_vacia_conserva_la_malla() {
    let mut m = Mundo::new();
    m.instala_malla((2, 0, 0), Some(7), 3);
    assert_eq!(m.instala_malla((2, 0, 0), None, 0), None);
    assert_eq!(m.get_chunk_by_idx(2, 0, 0).vbo, Some(7));
    assert_eq!(m.get_chunk_by_idx(2, 0, 0).n_vertices, 108);
}

#[test]
fn mundo_genera_mallas_de_trozo() {
    let mut m = Mundo::new();
    m.set(70, 140, 200, 6);
    assert_eq!(m.genera_mallas_de_trozo((1, 2, 3)), Some(vec![(70, 140, 200, 6)]));
    assert_eq!(m.genera_mallas_de_trozo((0, 0, 0)), Some(vec![]));
    assert_eq!(m.genera_mallas_de_trozo((8, 0, 0)), None);
    assert_eq!(m.genera_mallas_de_trozo((0, 0, 9)), None);
}

#[test]
fn mundo_historia_de_escrituras() {
    let mut m = Mundo::new();
    m.set(10, 20, 30, 1);
    m.set(10, 20, 30, 2);
    m.get_mut_chunk_by_idx(0, 0, 0).set(10, 20, 30, 3);
    m.set(300, 20, 30, 4);
    m.get_mut_chunk_by_idx(4, 0, 0).set(44, 20, 30, 5);
    assert_eq!(m.get(10, 20, 30), 3);
    assert_eq!(m.get(300, 20, 30), 5);
    assert_eq!(m.get(11, 20, 30), 0);
}
