use half2k::weights::{Weights, KING_HI, KING_LO, TUNED_LEN};

fn numbered() -> Weights {
    let v: Vec<i32> = (0..TUNED_LEN as i32).map(|x| x + 1).collect();
    Weights::zeroed().from_vec(&v)
}

#[test]
fn to_vec_has_every_tunable_scalar() {
    let w = Weights::zeroed();
    assert_eq!(w.to_vec().len(), 675);
    assert!(w.to_vec().iter().all(|&x| x == 0));
}

#[test]
fn from_vec_inverts_to_vec() {
    let w = numbered();
    let v = w.to_vec();
    assert_eq!(v[0], 1);
    assert_eq!(v[674], 675);
    let again = w.from_vec(&v);
    assert_eq!(again.to_vec(), v);
}

#[test]
fn a_short_vector_keeps_the_later_fields() {
    let w = numbered();
    let short = vec![-7, -8, -9];
    let r = w.from_vec(&short);
    let v = r.to_vec();
    assert_eq!(v.len(), 675);
    assert_eq!(&v[..3], &[-7, -8, -9]);
    assert_eq!(v[3], 4);
    assert_eq!(v[674], 675);
    let empty: Vec<i32> = Vec::new();
    assert_eq!(w.from_vec(&empty).to_vec(), w.to_vec());
}

#[test]
fn from_vec_carries_the_fixed_king_inputs() {
    let mut w = numbered();
    w.unsafe_queen_check = (5, 6);
    w.safety_pinned[2][1] = (3, 4);
    w.king_danger_table[10] = 99;
    let r = w.from_vec(&[1, 2]);
    assert_eq!(r.unsafe_queen_check, (5, 6));
    assert_eq!(r.safety_pinned[2][1], (3, 4));
    assert_eq!(r.king_danger_table[10], 99);
}

#[test]
fn silencing_the_king_zeroes_exactly_its_block() {
    let mut w = numbered();
    w.queenless_attack = (8, 9);
    w.safety_discovered[4][2] = (1, 1);
    w.king_danger_table[3] = 12;
    let s = w.with_king_silenced();
    let v = s.to_vec();
    for (j, &x) in v.iter().enumerate() {
        if (KING_LO..KING_HI).contains(&j) {
            assert_eq!(x, 0);
        } else {
            assert_eq!(x, j as i32 + 1);
        }
    }
    assert_eq!(KING_LO, 240);
    assert_eq!(KING_HI, 276);
    assert_eq!(s.queenless_attack, (0, 0));
    assert_eq!(s.safety_discovered[4][2], (0, 0));
    assert_eq!(s.king_danger_table[3], 12);
}
