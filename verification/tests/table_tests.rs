use stgen6::state::E;
use stgen6::closure::{closure, closure_from};
use stgen6::table::{generate, lookup, resolve, Unresolved};
use stgen6::counts::{dec, inc};

const EXPECTED: [(u32, u32, u32, u32, u32, u32); 255] = [
    (0, 0, 0, 51, 0, 1),
    (0, 1, 1, 52, 1, 2),
    (0, 2, 1, 52, 2, 3),
    (0, 3, 1, 52, 3, 4),
    (0, 4, 2, 53, 4, 5),
    (0, 5, 2, 53, 5, 6),
    (0, 6, 3, 54, 6, 7),
    (0, 7, 3, 54, 7, 8),
    (0, 8, 4, 55, 8, 9),
    (0, 9, 4, 55, 9, 10),
    (0, 10, 5, 56, 10, 11),
    (0, 11, 5, 56, 11, 12),
    (0, 12, 6, 57, 12, 13),
    (0, 13, 6, 57, 13, 14),
    (0, 14, 7, 58, 14, 15),
    (0, 15, 7, 58, 15, 16),
    (0, 16, 8, 59, 16, 17),
    (0, 17, 8, 59, 17, 18),
    (0, 18, 9, 60, 18, 19),
    (0, 19, 9, 60, 19, 20),
    (0, 20, 10, 61, 20, 21),
    (0, 21, 10, 61, 21, 22),
    (0, 22, 11, 62, 22, 23),
    (0, 23, 11, 62, 23, 24),
    (0, 24, 12, 63, 24, 25),
    (0, 25, 11, 62, 25, 26),
    (0, 26, 11, 62, 26, 27),
    (0, 27, 11, 62, 27, 28),
    (0, 28, 11, 62, 28, 29),
    (0, 29, 11, 62, 29, 30),
    (0, 30, 11, 62, 30, 31),
    (0, 31, 11, 62, 31, 32),
    (0, 32, 11, 62, 32, 33),
    (0, 33, 11, 62, 33, 34),
    (0, 34, 11, 62, 34, 35),
    (0, 35, 11, 62, 35, 36),
    (0, 36, 12, 63, 36, 37),
    (0, 37, 12, 63, 37, 38),
    (0, 38, 12, 63, 38, 39),
    (0, 39, 12, 63, 39, 40),
    (0, 40, 12, 63, 40, 41),
    (0, 44, 12, 63, 41, 42),
    (0, 48, 12, 63, 42, 43),
    (0, 56, 13, 64, 43, 44),
    (0, 64, 14, 65, 44, 45),
    (0, 96, 15, 66, 45, 46),
    (0, 128, 17, 68, 46, 47),
    (0, 160, 18, 69, 47, 48),
    (0, 192, 19, 70, 48, 49),
    (0, 224, 20, 71, 49, 50),
    (0, 255, 21, 72, 50, 50),
    (1, 0, 51, 102, 51, 52),
    (1, 1, 52, 103, 52, 53),
    (1, 2, 52, 103, 53, 54),
    (1, 3, 52, 103, 54, 55),
    (1, 4, 53, 104, 55, 56),
    (1, 5, 53, 104, 56, 57),
    (1, 6, 54, 105, 57, 58),
    (1, 7, 54, 105, 58, 59),
    (1, 8, 55, 106, 59, 60),
    (1, 9, 55, 106, 60, 61),
    (1, 10, 56, 107, 61, 62),
    (1, 11, 56, 107, 62, 63),
    (1, 12, 57, 108, 63, 64),
    (1, 13, 57, 108, 64, 65),
    (1, 14, 58, 109, 65, 66),
    (1, 15, 58, 109, 66, 67),
    (1, 16, 59, 110, 67, 68),
    (1, 17, 59, 110, 68, 69),
    (1, 18, 60, 111, 69, 70),
    (1, 19, 60, 111, 70, 71),
    (1, 20, 61, 112, 71, 72),
    (1, 21, 61, 112, 72, 73),
    (1, 22, 62, 113, 73, 74),
    (1, 23, 62, 113, 74, 75),
    (1, 24, 63, 114, 75, 76),
    (1, 25, 62, 113, 76, 77),
    (1, 26, 62, 113, 77, 78),
    (1, 27, 62, 113, 78, 79),
    (1, 28, 62, 113, 79, 80),
    (1, 29, 62, 113, 80, 81),
    (1, 30, 62, 113, 81, 82),
    (1, 31, 62, 113, 82, 83),
    (1, 32, 62, 113, 83, 84),
    (1, 33, 62, 113, 84, 85),
    (1, 34, 62, 113, 85, 86),
    (1, 35, 62, 113, 86, 87),
    (1, 36, 63, 114, 87, 88),
    (1, 37, 63, 114, 88, 89),
    (1, 38, 63, 114, 89, 90),
    (1, 39, 63, 114, 90, 91),
    (1, 40, 63, 114, 91, 92),
    (1, 44, 63, 114, 92, 93),
    (1, 48, 63, 114, 93, 94),
    (1, 56, 64, 115, 94, 95),
    (1, 64, 65, 116, 95, 96),
    (1, 96, 66, 117, 96, 97),
    (1, 128, 68, 118, 97, 98),
    (1, 160, 69, 119, 98, 99),
    (1, 192, 70, 120, 99, 100),
    (1, 224, 71, 121, 100, 101),
    (1, 255, 72, 122, 101, 101),
    (2, 0, 102, 123, 51, 52),
    (2, 1, 103, 124, 52, 53),
    (2, 2, 103, 124, 53, 54),
    (2, 3, 103, 124, 54, 55),
    (2, 4, 104, 125, 55, 56),
    (2, 5, 104, 125, 56, 57),
    (2, 6, 105, 126, 57, 58),
    (2, 7, 105, 126, 58, 59),
    (2, 8, 106, 127, 59, 60),
    (2, 9, 106, 127, 60, 61),
    (2, 10, 107, 128, 61, 62),
    (2, 11, 107, 128, 62, 63),
    (2, 12, 108, 129, 63, 64),
    (2, 13, 108, 129, 64, 65),
    (2, 14, 109, 130, 65, 66),
    (2, 15, 109, 130, 66, 67),
    (2, 17, 110, 131, 68, 69),
    (2, 18, 111, 132, 69, 70),
    (2, 19, 111, 132, 70, 71),
    (2, 20, 112, 133, 71, 72),
    (2, 21, 112, 133, 72, 73),
    (3, 0, 123, 134, 51, 52),
    (3, 1, 124, 135, 52, 53),
    (3, 2, 124, 135, 53, 54),
    (3, 3, 124, 135, 54, 55),
    (3, 4, 125, 136, 55, 56),
    (3, 5, 125, 136, 56, 57),
    (3, 6, 126, 137, 57, 58),
    (3, 7, 126, 137, 58, 59),
    (3, 8, 127, 138, 59, 60),
    (3, 9, 127, 138, 60, 61),
    (3, 10, 128, 139, 61, 62),
    (4, 0, 134, 140, 102, 103),
    (4, 1, 135, 141, 103, 104),
    (4, 2, 135, 141, 104, 105),
    (4, 3, 135, 141, 105, 106),
    (4, 4, 136, 142, 106, 107),
    (4, 5, 136, 142, 107, 108),
    (5, 0, 140, 145, 102, 103),
    (5, 1, 141, 146, 103, 104),
    (5, 2, 141, 146, 104, 105),
    (5, 3, 141, 146, 105, 106),
    (5, 4, 142, 147, 106, 107),
    (6, 0, 145, 149, 123, 124),
    (6, 1, 146, 150, 124, 125),
    (6, 2, 146, 150, 125, 126),
    (6, 3, 146, 150, 126, 127),
    (7, 0, 149, 153, 123, 124),
    (7, 1, 150, 154, 124, 125),
    (7, 2, 150, 154, 125, 126),
    (7, 3, 150, 154, 126, 127),
    (8, 0, 153, 157, 134, 135),
    (8, 1, 154, 158, 135, 136),
    (8, 2, 154, 158, 136, 137),
    (8, 3, 154, 158, 137, 138),
    (9, 0, 157, 161, 134, 135),
    (9, 1, 158, 162, 135, 136),
    (9, 2, 158, 162, 136, 137),
    (9, 3, 158, 162, 137, 138),
    (10, 0, 161, 165, 140, 141),
    (10, 1, 162, 166, 141, 142),
    (10, 2, 162, 166, 142, 143),
    (10, 3, 162, 166, 143, 144),
    (11, 0, 165, 168, 140, 141),
    (11, 1, 166, 169, 141, 142),
    (11, 2, 166, 169, 142, 143),
    (12, 0, 168, 171, 145, 146),
    (12, 1, 169, 172, 146, 147),
    (12, 2, 169, 172, 147, 148),
    (13, 0, 171, 174, 145, 146),
    (13, 1, 172, 175, 146, 147),
    (13, 2, 172, 175, 147, 148),
    (14, 0, 174, 177, 149, 150),
    (14, 1, 175, 178, 150, 151),
    (14, 2, 175, 178, 151, 152),
    (15, 0, 177, 180, 149, 150),
    (15, 1, 178, 181, 150, 151),
    (15, 2, 178, 181, 151, 152),
    (16, 0, 180, 182, 153, 154),
    (16, 1, 181, 183, 154, 155),
    (17, 0, 182, 185, 153, 154),
    (17, 1, 183, 186, 154, 155),
    (17, 2, 183, 186, 155, 156),
    (18, 0, 185, 188, 157, 158),
    (18, 1, 186, 189, 158, 159),
    (18, 2, 186, 189, 159, 160),
    (19, 0, 188, 191, 157, 158),
    (19, 1, 189, 192, 158, 159),
    (19, 2, 189, 192, 159, 160),
    (20, 0, 191, 194, 161, 162),
    (20, 1, 192, 195, 162, 163),
    (20, 2, 192, 195, 163, 164),
    (21, 0, 194, 197, 161, 162),
    (21, 1, 195, 198, 162, 163),
    (21, 2, 195, 198, 163, 164),
    (22, 0, 197, 199, 165, 166),
    (22, 1, 198, 200, 166, 167),
    (23, 0, 199, 201, 165, 166),
    (23, 1, 200, 202, 166, 167),
    (24, 0, 201, 203, 168, 169),
    (24, 1, 202, 204, 169, 170),
    (25, 0, 203, 205, 165, 166),
    (25, 1, 204, 206, 166, 167),
    (26, 0, 205, 207, 165, 166),
    (26, 1, 206, 208, 166, 167),
    (27, 0, 207, 209, 165, 166),
    (27, 1, 208, 210, 166, 167),
    (28, 0, 209, 211, 165, 166),
    (28, 1, 210, 212, 166, 167),
    (29, 0, 211, 213, 165, 166),
    (29, 1, 212, 214, 166, 167),
    (30, 0, 213, 215, 165, 166),
    (30, 1, 214, 216, 166, 167),
    (31, 0, 215, 217, 165, 166),
    (31, 1, 216, 218, 166, 167),
    (32, 0, 217, 219, 165, 166),
    (32, 1, 218, 220, 166, 167),
    (33, 0, 219, 221, 165, 166),
    (33, 1, 220, 222, 166, 167),
    (34, 0, 221, 223, 165, 166),
    (34, 1, 222, 224, 166, 167),
    (35, 0, 223, 225, 165, 166),
    (35, 1, 224, 226, 166, 167),
    (36, 0, 225, 227, 168, 169),
    (36, 1, 226, 228, 169, 170),
    (37, 0, 227, 229, 168, 169),
    (37, 1, 228, 230, 169, 170),
    (38, 0, 229, 231, 168, 169),
    (38, 1, 230, 232, 169, 170),
    (39, 0, 231, 233, 168, 169),
    (39, 1, 232, 234, 169, 170),
    (40, 0, 233, 235, 168, 169),
    (40, 1, 234, 236, 169, 170),
    (44, 0, 235, 237, 168, 169),
    (44, 1, 236, 238, 169, 170),
    (48, 0, 237, 239, 168, 169),
    (48, 1, 238, 240, 169, 170),
    (56, 0, 239, 241, 171, 172),
    (56, 1, 240, 242, 172, 173),
    (64, 0, 241, 243, 174, 175),
    (64, 1, 242, 244, 175, 176),
    (96, 0, 243, 245, 177, 178),
    (96, 1, 244, 246, 178, 179),
    (128, 0, 245, 247, 182, 183),
    (128, 1, 246, 248, 183, 184),
    (160, 0, 247, 249, 185, 186),
    (160, 1, 248, 250, 186, 187),
    (192, 0, 249, 251, 188, 189),
    (192, 1, 250, 252, 189, 190),
    (224, 0, 251, 253, 191, 192),
    (224, 1, 252, 254, 192, 193),
    (255, 0, 253, 253, 194, 195),
    (255, 1, 254, 254, 195, 196),
];

fn state(n0: u32, n1: u32, s00: u32, s01: u32, s10: u32, s11: u32) -> E {
    E { n0, n1, s00, s01, s10, s11 }
}

#[test]
fn closure_has_255_states() {
    assert_eq!(closure().len(), 255);
    assert_eq!(generate().len(), 255);
}

#[test]
fn closure_lists_unresolved_states_in_order() {
    let set = closure();
    assert_eq!(set.len(), EXPECTED.len());
    for (e, x) in set.iter().zip(EXPECTED.iter()) {
        assert_eq!(*e, E::new(x.0, x.1));
    }
    for pair in set.windows(2) {
        assert!((pair[0].n0, pair[0].n1) < (pair[1].n0, pair[1].n1));
    }
}

#[test]
fn generated_table_matches_expected_rows() {
    let table = generate();
    assert_eq!(table.len(), EXPECTED.len());
    for (e, x) in table.iter().zip(EXPECTED.iter()) {
        assert_eq!(*e, state(x.0, x.1, x.2, x.3, x.4, x.5));
    }
}

#[test]
fn every_target_is_in_the_table() {
    let table = generate();
    for e in table.iter() {
        let t00 = table[e.s00 as usize];
        let t01 = table[e.s01 as usize];
        let t10 = table[e.s10 as usize];
        let t11 = table[e.s11 as usize];
        assert_eq!((t00.n0, t00.n1), (e.n0, dec(e.n1)));
        assert_eq!((t01.n0, t01.n1), (inc(e.n0), dec(e.n1)));
        assert_eq!((t10.n0, t10.n1), (dec(e.n0), e.n1));
        assert_eq!((t11.n0, t11.n1), (dec(e.n0), inc(e.n1)));
    }
}

#[test]
fn closing_a_closure_changes_nothing() {
    let first = closure();
    let second = closure_from(&first);
    assert_eq!(first, second);
}

#[test]
fn closure_from_ignores_order_and_repeats_of_the_start() {
    let start = vec![E::new(3, 1), E::new(0, 0), E::new(3, 1)];
    let set = closure_from(&start);
    let sorted = closure_from(&vec![E::new(0, 0), E::new(3, 1)]);
    assert_eq!(set, sorted);
    assert!(lookup(&set, 3, 1).is_some());
    assert!(lookup(&set, 0, 0).is_some());
}

#[test]
fn closure_of_nothing_is_empty() {
    assert_eq!(closure_from(&Vec::new()), Vec::new());
}

#[test]
fn closure_from_another_start() {
    // A count of 1 does not decay, so no state with a zero first count can
    // be reached from (1, 0).
    let set = closure_from(&vec![E::new(1, 0)]);
    assert_eq!(set.len(), 204);
    assert_eq!(set[0], E::new(1, 0));
    assert_eq!(set[1], E::new(1, 1));
    let whole = closure();
    for e in set.iter() {
        assert!(e.n0 != 0);
        assert!(lookup(&whole, e.n0, e.n1).is_some());
    }
    assert_eq!(whole.iter().filter(|e| e.n0 == 0).count(), 51);
}

#[test]
fn generating_twice_gives_the_same_table() {
    assert_eq!(generate(), generate());
}

#[test]
fn origin_is_first_and_leads_to_one_zero() {
    let table = generate();
    assert_eq!((table[0].n0, table[0].n1), (0, 0));
    assert_eq!(inc(0), 1);
    assert_eq!(dec(0), 0);
    let target = table[table[0].s01 as usize];
    assert_eq!((target.n0, target.n1), (1, 0));
    assert_eq!(Some(table[0].s01 as usize), lookup(&table, 1, 0));
    assert_eq!(table[0], state(0, 0, 0, 51, 0, 1));
}

#[test]
fn capped_states_decay_to_21() {
    assert_eq!(dec(255), 21);
    let table = generate();
    assert_eq!(lookup(&table, 255, 255), None);
    let last = table[254];
    assert_eq!((last.n0, last.n1), (255, 1));
    // s00 and s01 agree: 255 is its own successor.
    assert_eq!(last.s00, last.s01);
    assert_eq!(last.s00, 254);
    let decayed = table[last.s10 as usize];
    assert_eq!((decayed.n0, decayed.n1), (21, 1));
}

#[test]
fn lookup_finds_the_index_or_nothing() {
    let set = vec![E::new(0, 0), E::new(0, 1), E::new(1, 0)];
    assert_eq!(lookup(&set, 0, 0), Some(0));
    assert_eq!(lookup(&set, 0, 1), Some(1));
    assert_eq!(lookup(&set, 1, 0), Some(2));
    assert_eq!(lookup(&set, 1, 1), None);
    assert_eq!(lookup(&Vec::new(), 0, 0), None);
}

#[test]
fn lookup_takes_the_last_of_equal_counts() {
    let set = vec![E::new(2, 2), E::new(1, 0), E::new(2, 2)];
    assert_eq!(lookup(&set, 2, 2), Some(2));
}

#[test]
fn resolve_names_the_first_missing_target() {
    // (0, 0) leads to (1, 0) and (0, 1), which are not there.
    let r = resolve(vec![E::new(0, 0)]);
    assert_eq!(r, Err(Unresolved { state: 0, n0: 1, n1: 0 }));
    // With (1, 0) present, (0, 1) is the first gap of state 0.
    let r = resolve(vec![E::new(0, 0), E::new(1, 0)]);
    assert_eq!(r, Err(Unresolved { state: 0, n0: 0, n1: 1 }));
    // State 0 is complete here; state 1, (0, 1), stays at itself on a failed
    // increment and lacks (1, 1) for a successful one.
    let r = resolve(vec![E::new(0, 0), E::new(0, 1), E::new(1, 0)]);
    assert_eq!(r, Err(Unresolved { state: 1, n0: 1, n1: 1 }));
    // With (1, 1) too, state 1 lacks (0, 2) for an input of 1.
    let r = resolve(vec![E::new(0, 0), E::new(0, 1), E::new(1, 0), E::new(1, 1)]);
    assert_eq!(r, Err(Unresolved { state: 1, n0: 0, n1: 2 }));
}

#[test]
fn resolve_of_nothing_is_nothing() {
    assert_eq!(resolve(Vec::new()), Ok(Vec::new()));
}

#[test]
fn resolve_fills_the_closure() {
    let table = resolve(closure()).unwrap();
    assert_eq!(table, generate());
    assert_eq!(table[1], state(0, 1, 1, 52, 1, 2));
    assert_eq!(table[233], state(40, 0, 233, 235, 168, 169));
}
